use bc4py_plotter::bytes::{replace_at, slice_replace};
use bc4py_plotter::chain::mask_links;
use bc4py_plotter::pochash;
use bc4py_plotter::{generator, HASH_LENGTH, HASH_LOOP_COUNT, SEED_LENGTH};
use sha2::{Digest, Sha512};

const ADDRESS: &str = "NDTTLPOUBQQLC5SZ4BPKK2GK6U3RP6TUKGBCCLDV";

/// The SHA-512 plot computed the direct way: a list of digests, each over the
/// digests before it (newest first) and the seed.
fn sha_reference(address: &[u8], nonce: u32) -> Vec<u8> {
    let mut tail: Vec<u8> = address.to_vec();
    tail.extend_from_slice(&nonce.to_le_bytes());
    let mut links: Vec<Vec<u8>> = Vec::new();
    for _ in 0..512 {
        let h = Sha512::digest(&tail).to_vec();
        let mut next = h.clone();
        next.extend_from_slice(&tail);
        tail = next;
        links.push(h);
    }
    let mask = Sha512::digest(&tail).to_vec();
    let mut out = Vec::new();
    for link in links.iter() {
        for k in 0..64 {
            out.push(mask[k] ^ link[k]);
        }
    }
    out
}

/// The BLAKE2b plot computed the direct way, hashing at most 1024 leading bytes per step.
fn poc_reference(ver_identifier: &[u8], nonce: u32) -> Vec<u8> {
    let mut tail: Vec<u8> = ver_identifier.to_vec();
    tail.extend_from_slice(&nonce.to_le_bytes());
    let mut links: Vec<Vec<u8>> = Vec::new();
    for _ in 0..8192 {
        let window = if tail.len() <= 1024 { &tail[..] } else { &tail[..1024] };
        let h = blake2b_simd::blake2b(window).as_bytes().to_vec();
        let mut next = h.clone();
        next.extend_from_slice(&tail);
        tail = next;
        links.push(h);
    }
    let mask = blake2b_simd::blake2b(&tail).as_bytes().to_vec();
    let mut out = Vec::new();
    for link in links.iter() {
        for k in 0..64 {
            out.push(mask[k] ^ link[k]);
        }
    }
    out
}

#[test]
fn constants_of_the_sha_plot() {
    assert_eq!(HASH_LOOP_COUNT, 512);
    assert_eq!(HASH_LENGTH, 64);
    assert_eq!(SEED_LENGTH, 44);
    assert_eq!(SEED_LENGTH, ADDRESS.len() + 4);
}

#[test]
fn sha_generator_matches_the_chain_definition() {
    let plot = generator(ADDRESS, 123456);
    assert_eq!(plot.len(), 32768);
    assert_eq!(plot.to_vec(), sha_reference(ADDRESS.as_bytes(), 123456));
}

#[test]
fn sha_generator_is_deterministic_and_depends_on_the_nonce() {
    let a = generator(ADDRESS, 0);
    let b = generator(ADDRESS, 0);
    let c = generator(ADDRESS, 1);
    assert_eq!(a.to_vec(), b.to_vec());
    assert_ne!(a.to_vec(), c.to_vec());
}

#[test]
fn sha_generator_depends_on_the_address() {
    let other = "NDTTLPOUBQQLC5SZ4BPKK2GK6U3RP6TUKGBCCLDW";
    assert_ne!(generator(ADDRESS, 7).to_vec(), generator(other, 7).to_vec());
}

#[test]
fn poc_generator_matches_the_chain_definition() {
    let ver_identifier: Vec<u8> = (0u8..21).collect();
    let mut output = Box::new([0u8; pochash::PLOT_LENGTH]);
    pochash::generator(&ver_identifier, 42, &mut output);
    assert_eq!(output.to_vec(), poc_reference(&ver_identifier, 42));
}

#[test]
fn poc_generator_overwrites_the_whole_output() {
    let ver_identifier = [7u8; 21];
    let mut first = Box::new([0u8; pochash::PLOT_LENGTH]);
    let mut second = Box::new([0xffu8; pochash::PLOT_LENGTH]);
    pochash::generator(&ver_identifier, 9, &mut first);
    pochash::generator(&ver_identifier, 9, &mut second);
    assert_eq!(first.to_vec(), second.to_vec());
    let mut third = Box::new([0u8; pochash::PLOT_LENGTH]);
    pochash::generator(&ver_identifier, 10, &mut third);
    assert_ne!(first.to_vec(), third.to_vec());
}

#[test]
fn poc_constants() {
    assert_eq!(pochash::HASH_LOOP_COUNT * pochash::HASH_LENGTH, pochash::PLOT_LENGTH);
    assert_eq!(pochash::SEED_LENGTH, 25);
    assert_eq!(pochash::HASH_WINDOW, 1024);
}

#[test]
fn slice_replace_copies_every_byte() {
    let mut dst = [1u8, 2, 3, 4];
    slice_replace(&mut dst, &[9, 8, 7, 6]);
    assert_eq!(dst, [9, 8, 7, 6]);
    let mut empty: [u8; 0] = [];
    slice_replace(&mut empty, &[]);
    assert_eq!(empty.len(), 0);
}

#[test]
fn replace_at_touches_only_the_window() {
    let mut dst = vec![0u8; 8];
    replace_at(&mut dst, 3, &[5, 6, 7]);
    assert_eq!(dst, vec![0, 0, 0, 5, 6, 7, 0, 0]);
    replace_at(&mut dst, 5, &[1, 2, 3]);
    assert_eq!(dst, vec![0, 0, 0, 5, 6, 1, 2, 3]);
    replace_at(&mut dst, 8, &[]);
    assert_eq!(dst, vec![0, 0, 0, 5, 6, 1, 2, 3]);
}

#[test]
fn mask_links_takes_blocks_from_the_end() {
    let mut buffer = vec![0u8; 64 * 3 + 5];
    for (i, b) in buffer.iter_mut().enumerate() {
        *b = (i / 64) as u8 + 1;
    }
    let mask = [0x10u8; 64];
    let out = mask_links(&buffer, &mask, 2);
    assert_eq!(out.len(), 128);
    assert!(out[..64].iter().all(|b| *b == 0x12));
    assert!(out[64..].iter().all(|b| *b == 0x11));
    assert!(mask_links(&buffer, &mask, 0).is_empty());
}
