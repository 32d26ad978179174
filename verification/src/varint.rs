//! The persisted encoding of a commit's changed-path list: a sequence of
//! LEB128-style variable-length unsigned integers, seven payload bits per
//! byte, least significant group first, high bit set on every byte but the
//! last. A `u32` therefore never needs more than five bytes, and the decoder
//! rejects longer runs.
use vstd::prelude::*;

verus! {

/// The canonical encoding of one value.
pub open spec fn varint_enc(v: nat) -> Seq<u8>
    decreases v,
{
    if v < 128 {
        seq![v as u8]
    } else {
        seq![(v % 128 + 128) as u8] + varint_enc(v / 128)
    }
}

/// Decoding one value from the front of `s`, allowing at most `fuel` bytes:
/// the value and the number of bytes consumed.
pub open spec fn varint_dec_rec(s: Seq<u8>, fuel: nat) -> Option<(nat, nat)>
    decreases fuel,
{
    if fuel == 0 || s.len() == 0 {
        None
    } else if s[0] < 128 {
        Some((s[0] as nat, 1))
    } else {
        match varint_dec_rec(s.drop_first(), (fuel - 1) as nat) {
            None => None,
            Some((v, n)) => Some(((s[0] - 128) as nat + 128 * v, n + 1)),
        }
    }
}

/// Decoding one `u32` from the front of `s`: five bytes at most, and the
/// value must fit.
pub open spec fn varint_dec(s: Seq<u8>) -> Option<(u32, nat)> {
    match varint_dec_rec(s, 5) {
        None => None,
        Some((v, n)) => if v < 0x1_0000_0000 {
            Some((v as u32, n))
        } else {
            None
        },
    }
}

/// The encoding of a whole list, one value after the other.
pub open spec fn enc_list(l: Seq<u32>) -> Seq<u8>
    decreases l.len(),
{
    if l.len() == 0 {
        Seq::empty()
    } else {
        varint_enc(l[0] as nat) + enc_list(l.drop_first())
    }
}

/// Decoding a whole buffer back into a list; `None` when any value is
/// malformed or the buffer ends inside a value.
pub open spec fn dec_list(s: Seq<u8>) -> Option<Seq<u32>>
    decreases s.len(),
    when s.len() >= 0
    via dec_list_decreases
{
    if s.len() == 0 {
        Some(Seq::empty())
    } else {
        match varint_dec(s) {
            None => None,
            Some((v, n)) => match dec_list(s.skip(n as int)) {
                None => None,
                Some(t) => Some(seq![v] + t),
            },
        }
    }
}

proof fn lemma_dec_rec_consumes(s: Seq<u8>, fuel: nat)
    ensures
        match varint_dec_rec(s, fuel) {
            None => true,
            Some((v, n)) => 1 <= n <= s.len() && n <= fuel,
        },
    decreases fuel,
{
    if fuel == 0 || s.len() == 0 {
    } else if s[0] < 128 {
    } else {
        lemma_dec_rec_consumes(s.drop_first(), (fuel - 1) as nat);
    }
}

#[via_fn]
proof fn dec_list_decreases(s: Seq<u8>) {
    lemma_dec_rec_consumes(s, 5);
}

pub open spec fn pow128(k: nat) -> nat
    decreases k,
{
    if k == 0 {
        1
    } else {
        128 * pow128((k - 1) as nat)
    }
}

proof fn lemma_dec_rec_bound(s: Seq<u8>, fuel: nat)
    ensures
        match varint_dec_rec(s, fuel) {
            None => true,
            Some((v, n)) => v < pow128(fuel),
        },
    decreases fuel,
{
    if fuel == 0 || s.len() == 0 {
    } else if s[0] < 128 {
        assert(pow128(fuel) >= 128) by {
            lemma_pow128_at_least(fuel);
        }
    } else {
        lemma_dec_rec_consumes(s.drop_first(), (fuel - 1) as nat);
        lemma_dec_rec_bound(s.drop_first(), (fuel - 1) as nat);
    }
}

proof fn lemma_pow128_five()
    ensures
        pow128(5) == 34359738368,
{
    assert(pow128(0) == 1);
    assert(pow128(1) == 128);
    assert(pow128(2) == 16384);
    assert(pow128(3) == 2097152);
    assert(pow128(4) == 268435456);
}

proof fn lemma_pow128_at_least(k: nat)
    requires
        k >= 1,
    ensures
        pow128(k) >= 128,
        pow128(k) >= pow128((k - 1) as nat),
    decreases k,
{
    if k == 1 {
        assert(pow128(0) == 1);
        assert(pow128(1) == 128 * pow128(0));
    } else {
        lemma_pow128_at_least((k - 1) as nat);
        assert(pow128(k) == 128 * pow128((k - 1) as nat));
    }
}

proof fn lemma_pow128_mono(a: nat, b: nat)
    requires
        a <= b,
    ensures
        pow128(a) <= pow128(b),
    decreases b,
{
    if a == b {
    } else {
        lemma_pow128_mono(a, (b - 1) as nat);
        lemma_pow128_at_least(b);
        assert(pow128(b) == 128 * pow128((b - 1) as nat));
    }
}

/// Reads one varint starting at `pos`, spending at most `fuel` bytes.
fn read_varint_rec(buf: &Vec<u8>, pos: usize, fuel: u8) -> (r: Option<(u64, usize)>)
    requires
        pos <= buf@.len(),
        fuel <= 5,
    ensures
        match varint_dec_rec(buf@.skip(pos as int), fuel as nat) {
            None => r is None,
            Some((v, n)) => r == Some((v as u64, (pos + n) as usize)) && v < pow128(fuel as nat),
        },
    decreases fuel,
{
    proof {
        lemma_dec_rec_bound(buf@.skip(pos as int), fuel as nat);
        lemma_dec_rec_consumes(buf@.skip(pos as int), fuel as nat);
    }
    if fuel == 0 || pos == buf.len() {
        None
    } else {
        let b = buf[pos];
        assert(buf@.skip(pos as int)[0] == b);
        if b < 128 {
            Some((b as u64, pos + 1))
        } else {
            assert(buf@.skip(pos as int).drop_first() =~= buf@.skip(pos as int + 1));
            match read_varint_rec(buf, pos + 1, fuel - 1) {
                None => None,
                Some((v, np)) => {
                    proof {
                        lemma_dec_rec_bound(buf@.skip(pos as int + 1), (fuel - 1) as nat);
                        lemma_pow128_at_least(fuel as nat);
                        assert(pow128(fuel as nat) == 128 * pow128((fuel - 1) as nat));
                        lemma_pow128_mono((fuel - 1) as nat, 4);
                        assert(pow128(4) == 268435456) by {
                            lemma_pow128_five();
                            assert(pow128(5) == 128 * pow128(4));
                        }
                        assert(v < 268435456);
                    }
                    Some(((b - 128) as u64 + 128 * v, np))
                },
            }
        }
    }
}

/// Reads one `u32` varint from `buf` at `pos`: the value and the position
/// just after it, or `None` where no well-formed value starts there.
pub fn read_varint(buf: &Vec<u8>, pos: usize) -> (r: Option<(u32, usize)>)
    requires
        pos <= buf@.len(),
    ensures
        match varint_dec(buf@.skip(pos as int)) {
            None => r is None,
            Some((v, n)) => r == Some((v, (pos + n) as usize)),
        },
{
    proof {
        lemma_pow128_five();
        lemma_dec_rec_consumes(buf@.skip(pos as int), 5);
    }
    match read_varint_rec(buf, pos, 5) {
        None => None,
        Some((v, np)) => {
            if v < 0x1_0000_0000u64 {
                Some((v as u32, np))
            } else {
                None
            }
        },
    }
}

/// Appends the encoding of `v` to `out`.
pub fn write_varint(out: &mut Vec<u8>, v: u32)
    ensures
        final(out)@ == old(out)@ + varint_enc(v as nat),
    decreases v,
{
    if v < 128 {
        out.push(v as u8);
        assert(out@ =~= old(out)@ + varint_enc(v as nat));
    } else {
        out.push((v % 128 + 128) as u8);
        let ghost mid = out@;
        write_varint(out, v / 128);
        assert(out@ =~= old(out)@ + varint_enc(v as nat));
    }
}

/// Encodes a whole list.
pub fn encode_changes(l: &Vec<u32>) -> (r: Vec<u8>)
    ensures
        r@ == enc_list(l@),
{
    let mut out: Vec<u8> = Vec::new();
    let mut i: usize = 0;
    while i < l.len()
        invariant
            i <= l@.len(),
            out@ == enc_list(l@.take(i as int)),
        decreases l@.len() - i,
    {
        proof {
            lemma_enc_list_take(l@, i as int);
        }
        write_varint(&mut out, l[i]);
        i = i + 1;
    }
    assert(l@.take(l@.len() as int) =~= l@);
    out
}

proof fn lemma_enc_list_take(l: Seq<u32>, i: int)
    requires
        0 <= i < l.len(),
    ensures
        enc_list(l.take(i + 1)) == enc_list(l.take(i)) + varint_enc(l[i] as nat),
    decreases i,
{
    let a = l.take(i + 1);
    if i == 0 {
        assert(a.drop_first() =~= l.take(0));
        assert(enc_list(l.take(0)) =~= Seq::<u8>::empty());
        assert(enc_list(a) =~= varint_enc(l[0] as nat) + enc_list(a.drop_first()));
        assert(enc_list(a) =~= enc_list(l.take(0)) + varint_enc(l[0] as nat));
    } else {
        lemma_enc_list_take(l.drop_first(), i - 1);
        assert(a.drop_first() =~= l.drop_first().take(i));
        assert(l.take(i).drop_first() =~= l.drop_first().take(i - 1));
        assert(a[0] == l[0] && l.take(i)[0] == l[0]);
        assert(enc_list(a) == varint_enc(l[0] as nat) + enc_list(l.drop_first().take(i)));
        assert(enc_list(l.take(i)) == varint_enc(l[0] as nat) + enc_list(l.drop_first().take(i - 1)));
        assert(l.drop_first()[i - 1] == l[i]);
        assert(enc_list(l.drop_first().take(i)) == enc_list(l.drop_first().take(i - 1)) + varint_enc(l[i] as nat));
        assert(enc_list(a) =~= enc_list(l.take(i)) + varint_enc(l[i] as nat));
    }
}

/// Decodes a whole buffer, `None` where it is not a well-formed encoding.
pub fn decode_changes(blob: &Vec<u8>) -> (r: Option<Vec<u32>>)
    ensures
        match dec_list(blob@) {
            None => r is None,
            Some(l) => r is Some && r->0@ == l,
        },
{
    let mut out: Vec<u32> = Vec::new();
    let mut pos: usize = 0;
    assert(blob@.skip(0) =~= blob@);
    loop
        invariant
            pos <= blob@.len(),
            match dec_list(blob@.skip(pos as int)) {
                None => dec_list(blob@) is None,
                Some(t) => dec_list(blob@) == Some(out@ + t),
            },
        decreases blob@.len() - pos,
    {
        if pos == blob.len() {
            assert(blob@.skip(pos as int) =~= Seq::<u8>::empty());
            assert(out@ + Seq::<u32>::empty() =~= out@);
            return Some(out);
        }
        match read_varint(blob, pos) {
            None => {
                return None;
            },
            Some((v, np)) => {
                proof {
                    lemma_dec_rec_consumes(blob@.skip(pos as int), 5);
                    let n = (np - pos) as int;
                    assert(blob@.skip(pos as int).skip(n) =~= blob@.skip(np as int));
                    match dec_list(blob@.skip(np as int)) {
                        None => {},
                        Some(t) => {
                            assert(out@ + (seq![v] + t) =~= out@.push(v) + t);
                        },
                    }
                }
                out.push(v);
                pos = np;
            },
        }
    }
}

/// The round trip for one value: decoding what `varint_enc` wrote yields the
/// value back and consumes exactly its bytes, whatever follows.
pub proof fn lemma_varint_round_trip(v: nat, rest: Seq<u8>, fuel: nat)
    requires
        v < pow128(fuel),
        1 <= fuel <= 5,
    ensures
        varint_dec_rec(varint_enc(v) + rest, fuel) == Some((v, varint_enc(v).len())),
    decreases fuel,
{
    let s = varint_enc(v) + rest;
    if v < 128 {
        assert(s[0] == v as u8);
    } else {
        assert(fuel >= 2) by {
            if fuel == 1 {
                assert(pow128(0) == 1);
                assert(pow128(1) == 128 * pow128(0));
            }
        }
        assert(s[0] == (v % 128 + 128) as u8);
        assert(s[0] >= 128);
        assert(v / 128 < pow128((fuel - 1) as nat)) by {
            assert(pow128(fuel) == 128 * pow128((fuel - 1) as nat));
        }
        assert(v / 128 >= 1);
        assert(pow128((fuel - 1) as nat) > 1);
        lemma_varint_round_trip(v / 128, rest, (fuel - 1) as nat);
        assert(s.drop_first() =~= varint_enc(v / 128) + rest);
        let inner = varint_dec_rec(s.drop_first(), (fuel - 1) as nat);
        assert(inner == Some((v / 128, varint_enc(v / 128).len())));
        assert((s[0] - 128) as nat + 128 * (v / 128) == v);
    }
}

/// The round trip for a list: `dec_list` inverts `enc_list` on every list.
pub proof fn lemma_enc_dec_round_trip(l: Seq<u32>)
    ensures
        dec_list(enc_list(l)) == Some(l),
    decreases l.len(),
{
    if l.len() == 0 {
        assert(enc_list(l).len() == 0);
        assert(Some(Seq::<u32>::empty()) == dec_list(enc_list(l)));
        assert(l =~= Seq::<u32>::empty());
    } else {
        let v = l[0];
        let rest = enc_list(l.drop_first());
        assert(enc_list(l) == varint_enc(v as nat) + rest);
        assert((v as nat) < pow128(5)) by {
            lemma_pow128_five();
        }
        lemma_varint_round_trip(v as nat, rest, 5);
        let e = varint_enc(v as nat);
        assert(e.len() >= 1) by {
            lemma_enc_len_at_least(v as nat);
        }
        assert(enc_list(l).len() > 0);
        assert(varint_dec(enc_list(l)) == Some((v, e.len())));
        assert((varint_enc(v as nat) + rest).skip(e.len() as int) =~= rest);
        lemma_enc_dec_round_trip(l.drop_first());
        assert(dec_list(enc_list(l)) == Some(seq![v] + l.drop_first()));
        assert(seq![v] + l.drop_first() =~= l);
    }
}

proof fn lemma_enc_len_at_least(v: nat)
    ensures
        varint_enc(v).len() >= 1,
{
}

} // verus!
