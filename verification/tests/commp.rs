use bao_fsm::commp::{outboard_name, piece_outboard, truncate_digest, CommpHasher};
use bao_fsm::hash::{combine_hash_pair, Digest, Hasher};
use bao_fsm::tree::BlockSize;

fn hex(bytes: &[u8]) -> String {
    let mut res = String::new();
    for b in bytes {
        res.push_str(&format!("{:02x}", b));
    }
    res
}

#[test]
fn chunk_hash_is_sha256_cut_to_254_bits() {
    assert_eq!(
        hex(&CommpHasher::hash_chunk(0, b"abc", true).0),
        "ba7816bf8f01cfea414140de5dae2223b00361a396177a9cb410ff61f200152d"
    );
    assert_eq!(
        hex(&CommpHasher::hash_chunk(7, b"", false).0),
        "e3b0c44298fc1c149afbf4c8996fb92427ae41e4649b934ca495991b7852b815"
    );
}

#[test]
fn inner_hash_is_the_hash_of_the_pair() {
    let zero = Digest([0u8; 32]);
    assert_eq!(
        hex(&CommpHasher::hash_inner(&zero, &zero, false).0),
        "f5a5fd42d16a20302798ef6ed309979b43003d2320d9f0e8ea9831a92759fb0b"
    );
    let a = CommpHasher::hash_chunk(0, b"a", false);
    let b = CommpHasher::hash_chunk(0, b"b", false);
    let pair = combine_hash_pair(&a, &b);
    assert_eq!(CommpHasher::hash_inner(&a, &b, true), CommpHasher::hash_chunk(0, &pair, true));
    assert_ne!(CommpHasher::hash_inner(&a, &b, true), CommpHasher::hash_inner(&b, &a, true));
}

#[test]
fn leaves_of_the_commitment_have_64_bytes() {
    assert_eq!(CommpHasher::CHUNK_SIZE, 64);
}

#[test]
fn truncation_clears_two_bits() {
    let res = truncate_digest([0xffu8; 32]);
    assert_eq!(res.0[31], 0x3f);
    for i in 0..31 {
        assert_eq!(res.0[i], 0xff);
    }
}

#[test]
fn piece_of_three_bytes() {
    let (hash, out) = piece_outboard(b"abc", BlockSize(0));
    assert_eq!(
        hex(&hash.0),
        "dc1114cd074914bd872cc1f9a23ec910ea2203bc79779ab2e17da25782a6243c"
    );
    assert_eq!(out, 4u64.to_le_bytes().to_vec());
}

#[test]
fn piece_spreads_out_254_bits() {
    let (hash, out) = piece_outboard(&[0xffu8; 40], BlockSize(0));
    let mut spread = vec![0xffu8; 31];
    spread.push(0x3f);
    spread.extend_from_slice(&[0xffu8; 8]);
    spread.push(0x03);
    spread.resize(64, 0);
    assert_eq!(hash, CommpHasher::hash_chunk(0, &spread, true));
    assert_eq!(out, 64u64.to_le_bytes().to_vec());
}

#[test]
fn piece_of_two_chunks_has_one_pair() {
    let data: Vec<u8> = (0..1500u32).map(|i| (i % 251) as u8).collect();
    let (hash, out) = piece_outboard(&data, BlockSize(0));
    assert_eq!(
        hex(&hash.0),
        "dea30785457e49b3f8d1884c7feaa8929328483bfd1f800470d078c541423f05"
    );
    assert_eq!(out.len(), 72);
    assert_eq!(
        hex(&out[..64]),
        "582089e41230a873e7dcc633f81fad08124f10d59e20078de15b046870b2ce2e\
         5f80bc0f5bba04d8b7dfdef140c307f9e72f0f2e98c1e5d138b1e0fc6854b31d"
    );
    assert_eq!(&out[64..], &2048u64.to_le_bytes());
}

#[test]
fn piece_of_one_group_has_no_pair() {
    let data: Vec<u8> = (0..1500u32).map(|i| (i % 251) as u8).collect();
    let (_hash, out) = piece_outboard(&data, BlockSize(1));
    assert_eq!(out, 2048u64.to_le_bytes().to_vec());
}

#[test]
fn empty_piece_has_one_byte() {
    let (hash, out) = piece_outboard(b"", BlockSize(0));
    assert_eq!(hash, CommpHasher::hash_chunk(0, &[0u8], true));
    assert_eq!(out, 1u64.to_le_bytes().to_vec());
}

#[test]
fn outboard_file_is_named_after_the_file() {
    assert_eq!(outboard_name("data.bin"), "data.bin.obao");
    assert_eq!(outboard_name(""), ".obao");
}
