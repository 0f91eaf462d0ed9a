use rokoblador::codec::{
    put_i64, put_u32, put_u64, read_statement, read_witness, write_statement, write_witness,
    DecodeError, Reader, MAGIC_STMT, MAGIC_WIT, VERSION,
};
use rokoblador::export::finalize;
use rokoblador::r64::R64;
use rokoblador::statement::{ConstraintSpec, Statement, VectorRecord, Witness};

fn element(seed: u64) -> R64 {
    std::array::from_fn(|i| seed.wrapping_mul(6364136223846793005).wrapping_add(i as u64))
}

fn sample() -> Statement {
    Statement {
        q: 1125899906842597,
        digest: std::array::from_fn(|i| i as u8 + 200),
        betasq_w_total: 77,
        betasq_inner_total: u64::MAX,
        vectors: vec![
            VectorRecord { n: 3, betasq: 5, role: 0, flags: 1 },
            VectorRecord { n: 1 << 40, betasq: 6, role: 9, flags: 0xffff_ffff },
        ],
        constraints: vec![
            ConstraintSpec {
                idx: vec![0, 1],
                off: vec![1, 2],
                len: vec![2, 1],
                b: Some(element(3)),
                phi: vec![element(4), element(5), element(6)],
            },
            ConstraintSpec { idx: vec![], off: vec![], len: vec![], b: None, phi: vec![] },
        ],
    }
}

#[test]
fn words_are_little_endian() {
    let mut buf = vec![9u8];
    put_u32(&mut buf, 0x0102_0304);
    put_u64(&mut buf, 0x1112_1314_1516_1718);
    put_i64(&mut buf, -2);
    assert_eq!(
        buf,
        vec![
            9, 4, 3, 2, 1, 0x18, 0x17, 0x16, 0x15, 0x14, 0x13, 0x12, 0x11, 0xfe, 0xff, 0xff, 0xff,
            0xff, 0xff, 0xff, 0xff
        ]
    );
    let mut r = Reader::new(&buf);
    assert_eq!(r.bytes(1), &[9u8]);
    assert_eq!(r.u32(), 0x0102_0304);
    assert_eq!(r.u64(), 0x1112_1314_1516_1718);
    assert_eq!(r.i64(), -2);
    assert_eq!(r.remaining(), 0);
}

#[test]
fn statement_bytes() {
    let s = sample();
    let bytes = write_statement(&s);
    assert_eq!(bytes.len(), 64 + 2 * 24 + (8 + 2 * 24 + 8 + 512 + 3 * 512) + (8 + 8));
    assert_eq!(&bytes[0..8], &[0x4c, 0x42, 0x4b, 0x52, 2, 0, 0, 0]);
    assert_eq!(&bytes[16..32], &s.digest);
    assert_eq!(&bytes[32..48], &[2, 0, 0, 0, 0, 0, 0, 0, 2, 0, 0, 0, 0, 0, 0, 0]);
    assert_eq!(bytes[48], 77);
    assert_eq!(MAGIC_STMT, 0x524B_424C);
    assert_eq!(VERSION, 2);
}

#[test]
fn statement_roundtrip() {
    let s = sample();
    let mut bytes = write_statement(&s);
    assert_eq!(read_statement(&bytes), Ok(s.clone()));
    bytes.extend_from_slice(&[1, 2, 3]);
    assert_eq!(read_statement(&bytes), Ok(s));
}

#[test]
fn statement_errors() {
    let bytes = write_statement(&sample());
    for n in 0..bytes.len() {
        assert_eq!(read_statement(&bytes[..n]), Err(DecodeError::Truncated));
    }
    let mut magic = bytes.clone();
    magic[0] ^= 1;
    assert_eq!(read_statement(&magic), Err(DecodeError::BadMagic));
    assert_eq!(read_statement(&magic[..5]), Err(DecodeError::BadMagic));
    let mut version = bytes.clone();
    version[4] = 1;
    assert_eq!(read_statement(&version), Err(DecodeError::BadVersion));
    let mut many = bytes.clone();
    many[39] = 0xff;
    assert_eq!(read_statement(&many), Err(DecodeError::Truncated));
    let mut huge = bytes;
    let len_at = 64 + 48 + 8 + 16;
    huge[len_at + 7] = 0xff;
    huge[len_at + 24 + 7] = 0xff;
    assert_eq!(read_statement(&huge), Err(DecodeError::Truncated));
}

#[test]
fn only_a_one_announces_a_target() {
    let mut s = sample();
    s.constraints.remove(0);
    let mut bytes = write_statement(&s);
    let flag = bytes.len() - 8;
    bytes[flag] = 2;
    assert_eq!(read_statement(&bytes), Ok(s));
}

#[test]
fn witness_roundtrip() {
    let w = Witness {
        vectors: vec![
            (0..128).map(|i| i - 64).collect(),
            vec![],
            (0..64).map(|i| if i == 0 { i64::MIN } else { i64::MAX - i }).collect(),
        ],
    };
    let mut bytes = write_witness(99, &w);
    assert_eq!(bytes.len(), 24 + (8 + 1024) + 8 + (8 + 512));
    assert_eq!(&bytes[0..4], &[0x57, 0x42, 0x4b, 0x52]);
    assert_eq!(read_witness(&bytes), Ok((99, w.clone())));
    bytes.push(7);
    assert_eq!(read_witness(&bytes), Ok((99, w)));
    assert_eq!(MAGIC_WIT, 0x524B_4257);
}

#[test]
fn witness_errors() {
    let bytes = write_witness(1, &Witness { vectors: vec![vec![5; 64]] });
    for n in 0..bytes.len() {
        assert_eq!(read_witness(&bytes[..n]), Err(DecodeError::Truncated));
    }
    let mut magic = bytes.clone();
    magic[3] = 0;
    assert_eq!(read_witness(&magic), Err(DecodeError::BadMagic));
    let mut version = bytes.clone();
    version[7] = 1;
    assert_eq!(read_witness(&version), Err(DecodeError::BadVersion));
    let mut huge = bytes;
    huge[31] = 0x80;
    assert_eq!(read_witness(&huge), Err(DecodeError::Truncated));
    assert_eq!(read_witness(&write_statement(&sample())), Err(DecodeError::BadMagic));
}

#[test]
fn differing_statements_have_differing_bytes() {
    let a = sample();
    let mut b = a.clone();
    b.digest[0] ^= 0xff;
    assert_ne!(write_statement(&a), write_statement(&b));
    assert_eq!(finalize(&write_statement(&a), &write_statement(&b)), None);
    let bytes = write_statement(&a);
    assert_eq!(finalize(&bytes, &write_statement(&a.clone())), Some(bytes.len()));
    assert_eq!(finalize(&bytes, &bytes[1..]), None);
    assert_eq!(finalize(&[], &[]), Some(0));
}
