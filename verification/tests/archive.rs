use north_pole::archive::{archive_files, archive_files_size, sum_sizes};

fn tarball(files: &[(&str, &[u8])]) -> Vec<u8> {
    let mut builder = tar::Builder::new(Vec::new());
    for (name, data) in files {
        let mut header = tar::Header::new_gnu();
        header.set_size(data.len() as u64);
        header.set_mode(0o644);
        header.set_cksum();
        builder.append_data(&mut header, name, *data).unwrap();
    }
    builder.into_inner().unwrap()
}

#[test]
fn entries_and_sizes_of_an_archive() {
    let bytes = tarball(&[
        ("a.txt", b"hello"),
        ("b/c.txt", b""),
        ("d.bin", &[7u8; 1000]),
        ("e", b"x"),
    ]);
    assert_eq!(archive_files(&bytes), 4);
    assert_eq!(archive_files_size(&bytes), Some(1006));
}

#[test]
fn an_empty_archive_holds_nothing() {
    let bytes = tarball(&[]);
    assert_eq!(archive_files(&bytes), 0);
    assert_eq!(archive_files_size(&bytes), Some(0));
    assert_eq!(archive_files(&[]), 0);
    assert_eq!(archive_files_size(&[]), Some(0));
}

#[test]
fn an_entry_that_cannot_be_read_counts_without_a_size() {
    let mut bytes = tarball(&[("a.txt", b"hello"), ("b.txt", b"world!")]);
    // spoil the header of the second entry
    for b in bytes[1024..1024 + 512].iter_mut() {
        *b = 0xff;
    }
    assert_eq!(archive_files(&bytes), 2);
    assert_eq!(archive_files_size(&bytes), Some(5));
}

#[test]
fn sizes_are_added_up_as_given() {
    assert_eq!(sum_sizes(&vec![]), Some(0));
    assert_eq!(sum_sizes(&vec![Some(3), None, Some(4)]), Some(7));
    assert_eq!(sum_sizes(&vec![None]), Some(0));
    assert_eq!(sum_sizes(&vec![Some(u64::MAX), Some(0)]), Some(usize::MAX));
    assert_eq!(sum_sizes(&vec![Some(u64::MAX), Some(1)]), None);
}
