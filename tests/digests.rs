use filescan::accum::DigestSet;
use filescan::pathname::{extension, file_name};
use filescan::record::{FileMeta, FileProcessor, Timestamp};

fn digest_in_chunks(data: &[u8], chunk: usize) -> (String, String, String) {
    let mut set = DigestSet::new();
    for c in data.chunks(chunk) {
        set.feed(c);
    }
    let d = set.finalize();
    (d.md5, d.sha1, d.sha256)
}

fn meta(path: &str, is_dir: bool, size: u64) -> FileMeta {
    FileMeta {
        path: path.to_string(),
        is_dir,
        size,
        mod_time: Timestamp { secs: 1_700_000_000, nanos: 5 },
        permissions: 0o100644,
    }
}

#[test]
fn digests_of_hello() {
    let (m, s1, s2) = digest_in_chunks(b"hello", 1024);
    assert_eq!(m, "5d41402abc4b2a76b9719d911017c592");
    assert_eq!(s1, "aaf4c61ddcc5e8a2dabede0f3b482cd9aea9434d");
    assert_eq!(s2, "2cf24dba5fb0a30e26e83b2ac5b9e29e1b161e5c1fa7425e73043362938b9824");
}

#[test]
fn digests_of_empty_content() {
    let d = DigestSet::new().finalize();
    assert_eq!(d.md5, "d41d8cd98f00b204e9800998ecf8427e");
    assert_eq!(d.sha1, "da39a3ee5e6b4b0d3255bfef95601890afd80709");
    assert_eq!(d.sha256, "e3b0c44298fc1c149afbf4c8996fb92427ae41e4649b934ca495991b7852b855");
}

#[test]
fn chunk_size_does_not_change_digests() {
    let data: Vec<u8> = (0..10_000u32).map(|i| (i * 7 % 251) as u8).collect();
    let one = digest_in_chunks(&data, 1);
    let big = digest_in_chunks(&data, 4096);
    let odd = digest_in_chunks(&data, 1000);
    assert_eq!(one, big);
    assert_eq!(one, odd);
    assert_eq!(one.0.len(), 32);
    assert_eq!(one.1.len(), 40);
    assert_eq!(one.2.len(), 64);
}

#[test]
fn names_and_extensions() {
    assert_eq!(file_name("root/a.txt"), "a.txt");
    assert_eq!(file_name("plain"), "plain");
    assert_eq!(file_name("/x/y/archive.tar.gz"), "archive.tar.gz");
    assert_eq!(extension("a.txt"), "txt");
    assert_eq!(extension("archive.tar.gz"), "gz");
    assert_eq!(extension("noext"), "");
    assert_eq!(extension(".bashrc"), "bashrc");
    assert_eq!(extension("trailing."), "");
}

#[test]
fn file_record_carries_all_digests() {
    let mut p = FileProcessor::open(meta("root/a.txt", false, 5));
    assert!(p.wants_content());
    p.feed(b"hel");
    p.feed(b"lo");
    let r = p.finish();
    assert_eq!(r.file_path, "root/a.txt");
    assert_eq!(r.file_name, "a.txt");
    assert_eq!(r.extension, "txt");
    assert_eq!(r.size, 5);
    assert!(!r.is_dir);
    assert_eq!(r.permissions, 0o100644);
    assert_eq!(r.mod_time, Timestamp { secs: 1_700_000_000, nanos: 5 });
    assert_eq!(r.md5, "5d41402abc4b2a76b9719d911017c592");
    assert_eq!(r.sha1, "aaf4c61ddcc5e8a2dabede0f3b482cd9aea9434d");
    assert_eq!(r.sha256, "2cf24dba5fb0a30e26e83b2ac5b9e29e1b161e5c1fa7425e73043362938b9824");
}

#[test]
fn directory_record_has_no_digests() {
    let p = FileProcessor::open(meta("root/sub", true, 4096));
    assert!(!p.wants_content());
    let r = p.finish();
    assert!(r.is_dir);
    assert_eq!(r.size, 0);
    assert_eq!(r.file_name, "sub");
    assert_eq!(r.extension, "");
    assert_eq!(r.md5, "");
    assert_eq!(r.sha1, "");
    assert_eq!(r.sha256, "");
}

#[test]
fn file_record_digests_are_all_hex_or_all_empty() {
    for (is_dir, content) in [(false, &b"world"[..]), (false, &b""[..]), (true, &b""[..])] {
        let mut p = FileProcessor::open(meta("d/w.txt", is_dir, content.len() as u64));
        if p.wants_content() {
            p.feed(content);
        }
        let r = p.finish();
        let fields = [&r.md5, &r.sha1, &r.sha256];
        if is_dir {
            assert!(fields.iter().all(|f| f.is_empty()));
        } else {
            assert_eq!([r.md5.len(), r.sha1.len(), r.sha256.len()], [32, 40, 64]);
            assert!(fields
                .iter()
                .all(|f| f.chars().all(|c| c.is_ascii_digit() || ('a'..='f').contains(&c))));
        }
    }
}

#[test]
fn md5_of_world() {
    let mut p = FileProcessor::open(meta("root/sub/b.txt", false, 5));
    p.feed(b"world");
    assert_eq!(p.finish().md5, "7d793037a0760186574b0282f2f435e7");
}

#[test]
fn record_same_for_any_read_split() {
    let data: Vec<u8> = (0..5000u32).map(|i| (i % 253) as u8).collect();
    let split = |n: usize| -> Vec<Vec<u8>> { data.chunks(n).map(|c| c.to_vec()).collect() };
    let run = |chunks: Vec<Vec<u8>>| {
        let mut p = FileProcessor::open(meta("r/.bashrc", false, data.len() as u64));
        p.feed_chunks(&chunks);
        p.finish()
    };
    let a = run(split(1));
    let b = run(split(1024));
    let c = run(split(4096));
    assert_eq!((&a.md5, &a.sha1, &a.sha256), (&b.md5, &b.sha1, &b.sha256));
    assert_eq!((&a.md5, &a.sha1, &a.sha256), (&c.md5, &c.sha1, &c.sha256));
    assert_eq!(a.file_name, ".bashrc");
    assert_eq!(a.extension, "bashrc");
    let whole = digest_in_chunks(&data, data.len());
    assert_eq!(a.md5, whole.0);
}
