use tantivy::directory::Lock;
use tantivy::directory::RamDirectory;
use tantivy::error::TantivyError;

fn test_simple(directory: &mut RamDirectory) {
    let test_path: &[u8] = b"some_path_for_test";
    {
        let mut write_file = directory.open_write(test_path).unwrap();
        assert!(directory.file_exists(test_path));
        write_file.write_all(&[4]);
        write_file.write_all(&[3]);
        write_file.write_all(&[7, 3, 5]);
        directory.flush(write_file).unwrap();
    }
    {
        let read_file = directory.open_read(test_path).unwrap();
        let data: &[u8] = read_file.as_slice();
        assert_eq!(data, &[4u8, 3u8, 7u8, 3u8, 5u8]);
    }
    assert!(directory.delete(test_path).is_ok());
    assert!(!directory.file_exists(test_path));
}

fn test_rewrite_forbidden(directory: &mut RamDirectory) {
    let test_path: &[u8] = b"some_path_for_test";
    {
        let w = directory.open_write(test_path).unwrap();
        directory.flush(w).unwrap();
        assert!(directory.file_exists(test_path));
    }
    {
        assert!(directory.open_write(test_path).is_err());
    }
    assert!(directory.delete(test_path).is_ok());
}

fn test_write_create_the_file(directory: &mut RamDirectory) {
    let test_path: &[u8] = b"some_path_for_test";
    {
        assert!(directory.open_read(test_path).is_err());
        let w = directory.open_write(test_path).unwrap();
        assert!(directory.file_exists(test_path));
        assert!(directory.open_read(test_path).is_ok());
        assert!(directory.delete(test_path).is_ok());
        directory.flush(w).unwrap();
        assert!(directory.delete(test_path).is_ok());
    }
}

fn test_directory_delete(directory: &mut RamDirectory) {
    let test_path: &[u8] = b"some_path_for_test";
    assert!(directory.open_read(test_path).is_err());
    let mut write_file = directory.open_write(test_path).unwrap();
    write_file.write_all(&[1, 2, 3, 4]);
    directory.flush(write_file).unwrap();
    {
        let read_handle = directory.open_read(test_path).unwrap();
        assert_eq!(read_handle.as_slice(), &[1u8, 2u8, 3u8, 4u8]);
        // the read handle's bytes survive the deletion of the file
        assert!(directory.delete(test_path).is_ok());
        assert_eq!(read_handle.as_slice(), &[1u8, 2u8, 3u8, 4u8]);

        assert!(directory.delete(b"SomeOtherPath").is_err());
    }
    assert!(directory.open_read(test_path).is_err());
    assert!(directory.delete(test_path).is_err());
}

fn test_lock_non_blocking(directory: &mut RamDirectory) {
    {
        let lock_a_res = directory.acquire_lock(&Lock {
            filepath: b"a.lock".to_vec(),
            is_blocking: false,
        });
        assert!(lock_a_res.is_ok());
        let lock_b_res = directory.acquire_lock(&Lock {
            filepath: b"b.lock".to_vec(),
            is_blocking: false,
        });
        assert!(lock_b_res.is_ok());
        let lock_a_res2 = directory.acquire_lock(&Lock {
            filepath: b"a.lock".to_vec(),
            is_blocking: false,
        });
        assert!(lock_a_res2.is_err());
        directory.release_lock(lock_a_res.unwrap());
        directory.release_lock(lock_b_res.unwrap());
    }
    let lock_a_res = directory.acquire_lock(&Lock {
        filepath: b"a.lock".to_vec(),
        is_blocking: false,
    });
    assert!(lock_a_res.is_ok());
    directory.release_lock(lock_a_res.unwrap());
}

fn test_watch(directory: &mut RamDirectory) {
    assert!(directory
        .atomic_write(b"meta.json", b"random_test_data")
        .is_ok());

    let watch_handle = directory.watch().unwrap();
    let second_handle = directory.watch().unwrap();
    for i in 0..10u64 {
        assert_eq!(i, directory.watch_count(&watch_handle));
        assert!(directory
            .atomic_write(b"meta.json", b"random_test_data_2")
            .is_ok());
        assert_eq!(i + 1, directory.watch_count(&watch_handle));
    }
    assert_eq!(10, directory.watch_count(&watch_handle));
    directory.unwatch(watch_handle);
    // a further write reaches only the registrations still alive
    assert!(directory
        .atomic_write(b"meta.json", b"random_test_data")
        .is_ok());
    assert_eq!(11, directory.watch_count(&second_handle));
    directory.unwatch(second_handle);
}

fn test_directory(directory: &mut RamDirectory) {
    test_simple(directory);
    test_rewrite_forbidden(directory);
    test_write_create_the_file(directory);
    test_directory_delete(directory);
    test_lock_non_blocking(directory);
    test_watch(directory);
}

#[test]
fn test_ram_directory() {
    let mut ram_directory = RamDirectory::create();
    test_directory(&mut ram_directory);
}

#[test]
fn test_atomic_write_idempotent() {
    let mut dir = RamDirectory::create();
    let h = dir.watch().unwrap();
    assert!(dir.atomic_write(b"meta.json", b"same-bytes").is_ok());
    assert!(dir.atomic_write(b"meta.json", b"same-bytes").is_ok());
    let read = dir.open_read(b"meta.json").unwrap();
    assert_eq!(read.as_slice(), b"same-bytes");
    assert_eq!(2, dir.watch_count(&h));
    dir.unwatch(h);
}

#[test]
fn test_open_read_missing_file_error_kind() {
    let dir = RamDirectory::create();
    match dir.open_read(b"never_written") {
        Err(e) => assert_eq!(e, TantivyError::FileDoesNotExist),
        Ok(_) => panic!("expected a missing-file error"),
    }
}

#[test]
fn test_rewrite_error_kind() {
    let mut dir = RamDirectory::create();
    let w = dir.open_write(b"once").unwrap();
    dir.flush(w).unwrap();
    match dir.open_write(b"once") {
        Err(e) => assert_eq!(e, TantivyError::FileAlreadyExists),
        Ok(_) => panic!("expected an already-exists error"),
    }
}

#[test]
fn test_lock_busy_error_kind() {
    let mut dir = RamDirectory::create();
    let guard = dir
        .acquire_lock(&Lock {
            filepath: b".tantivy-writer.lock".to_vec(),
            is_blocking: false,
        })
        .unwrap();
    match dir.acquire_lock(&Lock {
        filepath: b".tantivy-writer.lock".to_vec(),
        is_blocking: false,
    }) {
        Err(e) => assert_eq!(e, TantivyError::LockBusy),
        Ok(_) => panic!("expected a lock-busy error"),
    }
    dir.release_lock(guard);
}
