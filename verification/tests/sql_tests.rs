use lsh_rs::fx::Fx;
use lsh_rs::lsh::LSH;
use lsh_rs::sql_table::{SqlTable, SqlTableMem};

fn fxi(n: i64) -> Fx {
    Fx::from_int(n)
}

#[test]
fn test_sql_table_init() {
    let sql = SqlTableMem::new(1, true, ".").unwrap();
    let mut stmt = sql
        .sql_table
        .conn
        .prepare("SELECT * FROM hash_table_0")
        .expect("query failed");
    stmt.query(()).expect("query failed");
}

#[test]
fn test_sql_crud() {
    let mut sql = SqlTableMem::new(1, true, ".").unwrap();
    let v = vec![fxi(1), fxi(2)];
    for hash in &[vec![1i64, 2], vec![2i64, 3]] {
        sql.sql_table.put(hash.clone(), &v, 0).unwrap();
    }
    // make one hash collision by repeating one hash
    let hash = vec![1i64, 2];
    sql.sql_table.put(hash.clone(), &v, 0).unwrap();
    let bucket = sql.sql_table.query_bucket(&hash, 0);
    println!("{:?}", &bucket);
    match bucket {
        Ok(b) => assert!(b.contains(&0)),
        _ => assert!(false),
    }
}

#[test]
fn test_mem_db() {
    let mut lsh = LSH::new(5, 2, 3).seed(2).sql_mem().srp().unwrap();
    let v = &[fxi(2), fxi(3), fxi(4)];
    let id = lsh.store_vec(v).unwrap();
    assert_eq!(id, 0);
    assert!(lsh.query_bucket_ids(v).unwrap().contains(&0));
}

#[test]
fn test_db() {
    let path = "/tmp/lsh_rs_reattach_test.db3";
    {
        let mut lsh = LSH::new(5, 2, 3)
            .seed(2)
            .sql()
            .set_database_file(path)
            .srp()
            .unwrap();
        let v = &[fxi(2), fxi(3), fxi(4)];
        let id = lsh.store_vec(v).unwrap();
        assert_eq!(id, 0);
        lsh.commit().unwrap();
    }
    // Reopen the same database file with a different seed: the builder
    // finds the persisted hasher state and loads it instead of
    // regenerating, so the stored posting is found again.
    let lsh = LSH::new(5, 2, 3)
        .seed(9)
        .sql()
        .set_database_file(path)
        .srp()
        .unwrap();
    let v = &[fxi(2), fxi(3), fxi(4)];
    let found = lsh.query_bucket_ids(v).unwrap();
    assert!(found.contains(&0));
}

#[test]
fn test_sql_store_load_hashers() {
    let mut sql = SqlTable::new_in_memory(2, true).unwrap();
    let blob = vec![1u8, 2, 3, 4];
    sql.store_hashers(&blob).unwrap();
    assert_eq!(sql.load_hashers().unwrap(), blob);
    // A second store must fail: the state table already exists.
    assert!(sql.store_hashers(&blob).is_err());
}

#[test]
fn test_sql_to_db_and_back() {
    let path = "/tmp/lsh_rs_backup_test.db3";
    let mut sql = SqlTableMem::new(1, true, ".").unwrap();
    let v = vec![fxi(1), fxi(2)];
    sql.sql_table.put(vec![1i64, 2], &v, 0).unwrap();
    sql.sql_table.commit().unwrap();
    sql.to_db(path).unwrap();
    let mut back = SqlTable::new(1, true, path).unwrap();
    back.to_mem().unwrap();
    assert!(back.query_bucket(&[1i64, 2], 0).unwrap().contains(&0));
}

#[test]
fn test_blob_hash_casting() {
    for hash in vec![
        vec![2i64, 3, 4],
        vec![-124i64, 32, 89],
        vec![1i64, 2, 3, 4, 5, 6],
        vec![-12i64, -2, -3, 1, 2, 3, 4, 5, 6],
    ] {
        let blob = lsh_rs::sql_table::code_to_blob(&hash);
        let hash_back = lsh_rs::sql_table::blob_to_code(&blob).unwrap();
        assert_eq!(hash, hash_back)
    }
    // A truncated blob is rejected.
    assert!(lsh_rs::sql_table::blob_to_code(&[1, 2, 3]).is_none());
}

#[test]
fn test_hasher_blob_roundtrip() {
    // Serialized hashers decode to a set that hashes identically.
    let h = lsh_rs::hash::SignRandomProjections::new(4, 3, 21);
    let hs = vec![lsh_rs::hash::Hasher::Srp(h)];
    let blob = lsh_rs::codec::hashers_to_blob(&hs);
    let hs2 = lsh_rs::codec::hashers_from_blob(&blob).unwrap();
    assert!(lsh_rs::hash::check_hashers(&hs2, 1, 4, 3, 0));
    let v = [fxi(1), fxi(-2), fxi(3)];
    let c1 = match &hs[0] {
        lsh_rs::hash::Hasher::Srp(s) => s.hash_vec_query(&v),
        _ => panic!("unexpected family"),
    };
    let c2 = match &hs2[0] {
        lsh_rs::hash::Hasher::Srp(s) => s.hash_vec_query(&v),
        _ => panic!("unexpected family"),
    };
    assert_eq!(c1, c2);
    // A mangled blob is rejected.
    let mut bad = blob.clone();
    bad.pop();
    assert!(lsh_rs::codec::hashers_from_blob(&bad).is_none());
}

#[test]
fn test_code_blob_roundtrip_bytes() {
    // Little-endian serialization: one element per eight bytes.
    let blob = lsh_rs::sql_table::code_to_blob(&[2, 3, 4]);
    assert_eq!(blob.len(), 24);
    assert_eq!(&blob[0..8], &[2, 0, 0, 0, 0, 0, 0, 0]);
    let blob = lsh_rs::sql_table::code_to_blob(&[-1]);
    assert_eq!(blob, vec![0xff; 8]);
}
