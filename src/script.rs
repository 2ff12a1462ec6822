//! The few output and input scripts the node builds itself.
use vstd::prelude::*;

verus! {

pub const OP_RETURN: u8 = 0x6a;
pub const OP_DUP: u8 = 0x76;
pub const OP_HASH160: u8 = 0xa9;
pub const OP_EQUALVERIFY: u8 = 0x88;
pub const OP_CHECKSIG: u8 = 0xac;
pub const OP_PUSHDATA1: u8 = 0x4c;
pub const OP_PUSHDATA2: u8 = 0x4d;
pub const OP_PUSHDATA4: u8 = 0x4e;

/// The opcode and length bytes that push `n` bytes of data.
pub open spec fn push_prefix(n: nat) -> Seq<u8> {
    if n <= 75 {
        seq![n as u8]
    } else if n <= 0xff {
        seq![OP_PUSHDATA1, n as u8]
    } else if n <= 0xffff {
        seq![OP_PUSHDATA2, (n % 256) as u8, (n / 256) as u8]
    } else {
        seq![
            OP_PUSHDATA4,
            (n % 256) as u8,
            ((n / 256) % 256) as u8,
            ((n / 65536) % 256) as u8,
            (n / 16777216) as u8,
        ]
    }
}

/// Appends the bytes of `data` to `out`.
fn append(out: &mut Vec<u8>, data: &Vec<u8>)
    ensures
        final(out)@ == old(out)@ + data@,
{
    let mut i: usize = 0;
    while i < data.len()
        invariant
            i <= data@.len(),
            out@ == old(out)@ + data@.take(i as int),
        decreases data@.len() - i,
    {
        out.push(data[i]);
        assert(data@.take(i as int + 1) =~= data@.take(i as int).push(data@[i as int]));
        i = i + 1;
    }
    assert(data@.take(i as int) =~= data@);
}

/// Appends a push of `data` to `out`.
pub fn push_data(out: &mut Vec<u8>, data: &Vec<u8>)
    requires
        data@.len() <= 0xFFFF_FFFF,
    ensures
        final(out)@ == old(out)@ + push_prefix(data@.len()) + data@,
{
    let n = data.len();
    let ghost o = out@;
    if n <= 75 {
        out.push(n as u8);
    } else if n <= 0xff {
        out.push(OP_PUSHDATA1);
        out.push(n as u8);
    } else if n <= 0xffff {
        out.push(OP_PUSHDATA2);
        out.push((n % 256) as u8);
        out.push((n / 256) as u8);
    } else {
        out.push(OP_PUSHDATA4);
        out.push((n % 256) as u8);
        out.push(((n / 256) % 256) as u8);
        out.push(((n / 65536) % 256) as u8);
        out.push((n / 16777216) as u8);
    }
    assert(out@ =~= o + push_prefix(data@.len()));
    append(out, data);
}

/// An output script that carries `data` and can never be spent.
pub fn return_bytes(data: &Vec<u8>) -> (r: Vec<u8>)
    requires
        data@.len() <= 0xFFFF_FFFF,
    ensures
        r@ == seq![OP_RETURN] + push_prefix(data@.len()) + data@,
{
    let mut r: Vec<u8> = Vec::new();
    r.push(OP_RETURN);
    push_data(&mut r, data);
    r
}

/// The pay-to-public-key-hash output script for a 20-byte key hash.
pub fn build_p2pkh(hash: &Vec<u8>) -> (r: Vec<u8>)
    requires
        hash@.len() == 20,
    ensures
        r@ == seq![OP_DUP, OP_HASH160, 20u8] + hash@ + seq![OP_EQUALVERIFY, OP_CHECKSIG],
{
    let mut r: Vec<u8> = Vec::new();
    r.push(OP_DUP);
    r.push(OP_HASH160);
    push_data(&mut r, hash);
    let ghost mid = r@;
    r.push(OP_EQUALVERIFY);
    r.push(OP_CHECKSIG);
    assert(r@ =~= mid + seq![OP_EQUALVERIFY, OP_CHECKSIG]);
    assert(seq![OP_DUP, OP_HASH160] + push_prefix(20) =~= seq![OP_DUP, OP_HASH160, 20u8]);
    r
}

} // verus!
