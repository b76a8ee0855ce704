//! Decoding of the canonical transaction encoding. A decoder succeeds
//! exactly on the byte strings that some transaction encodes to.
use crate::encode::{read_u32, read_u64, u16_le, u32_le, u64_le, var_bytes, varint_bytes};
use crate::hash::read_hash;
use crate::transaction::{inputs_bytes, outputs_bytes, tx_bytes, txin_bytes, txout_bytes, OutPoint, Transaction, TxIn, TxOut};
use crate::util::Error;
use vstd::arithmetic::div_mod::*;
use vstd::prelude::*;

verus! {

/// Whether `s` stands in `b` from position `off` on.
pub open spec fn stands_at(b: Seq<u8>, off: int, s: Seq<u8>) -> bool {
    0 <= off && off + s.len() <= b.len() && b.subrange(off, off + s.len()) == s
}

pub proof fn lemma_stands_at_concat(b: Seq<u8>, off: int, x: Seq<u8>, y: Seq<u8>)
    ensures
        stands_at(b, off, x + y) == (stands_at(b, off, x) && stands_at(b, off + x.len(), y)),
{
    if stands_at(b, off, x + y) {
        let s = b.subrange(off, off + x.len() + y.len());
        assert(s == x + y);
        assert(b.subrange(off, off + x.len()) =~= s.subrange(0, x.len() as int));
        assert(s.subrange(0, x.len() as int) =~= x);
        assert(b.subrange(off + x.len(), off + x.len() + y.len()) =~= s.subrange(
            x.len() as int,
            (x.len() + y.len()) as int,
        ));
        assert(s.subrange(x.len() as int, (x.len() + y.len()) as int) =~= y);
    }
    if stands_at(b, off, x) && stands_at(b, off + x.len(), y) {
        assert(b.subrange(off, off + (x + y).len()) =~= x + y);
    }
}

fn read_u16(bytes: &Vec<u8>, off: usize) -> (r: u16)
    requires
        off + 2 <= bytes.len(),
    ensures
        u16_le(r) == bytes@.subrange(off as int, off + 2),
{
    let b0 = bytes[off];
    let b1 = bytes[off + 1];
    let r = b0 as u16 + 256 * b1 as u16;
    proof {
        lemma_fundamental_div_mod_converse(r as int, 256, b1 as int, b0 as int);
    }
    assert(u16_le(r) =~= bytes@.subrange(off as int, off + 2));
    r
}

proof fn lemma_u16_le_injective(a: u16, b: u16)
    requires
        u16_le(a) == u16_le(b),
    ensures
        a == b,
{
    assert(u16_le(a)[0] == u16_le(b)[0]);
    assert(u16_le(a)[1] == u16_le(b)[1]);
}

/// What a count prefix standing at `off` says about its first byte.
proof fn lemma_varint_at(b: Seq<u8>, off: int, m: u64)
    requires
        stands_at(b, off, varint_bytes(m)),
    ensures
        b[off] < 0xfd ==> m == b[off] as u64,
        b[off] == 0xfd ==> 0xfd <= m <= 0xffff && stands_at(b, off + 1, u16_le(m as u16)),
        b[off] == 0xfe ==> 0xffff < m <= 0xffff_ffff && stands_at(b, off + 1, u32_le(m as u32)),
        b[off] == 0xff ==> 0xffff_ffff < m && stands_at(b, off + 1, u64_le(m)),
{
    assert(b[off] == varint_bytes(m)[0]);
    if m < 0xfd {
    } else if m <= 0xffff {
        lemma_stands_at_concat(b, off, seq![0xfdu8], u16_le(m as u16));
    } else if m <= 0xffff_ffff {
        lemma_stands_at_concat(b, off, seq![0xfeu8], u32_le(m as u32));
    } else {
        lemma_stands_at_concat(b, off, seq![0xffu8], u64_le(m));
    }
}

/// Reads a count prefix; refuses one written longer than needed.
pub fn read_varint(bytes: &Vec<u8>, off: usize) -> (r: Option<(u64, usize)>)
    ensures
        r matches Some((n, e)) ==> stands_at(bytes@, off as int, varint_bytes(n)) && e == off
            + varint_bytes(n).len(),
        r matches Some((n, e)) ==> forall|m: u64|
            stands_at(bytes@, off as int, #[trigger] varint_bytes(m)) ==> m == n,
        r is None ==> forall|m: u64| !stands_at(bytes@, off as int, #[trigger] varint_bytes(m)),
{
    let len = bytes.len();
    if off >= len {
        return None;
    }
    let tag = bytes[off];
    let ghost b = bytes@;
    if tag < 0xfd {
        let n = tag as u64;
        assert(varint_bytes(n) =~= bytes@.subrange(off as int, off + 1));
        proof {
            assert forall|m: u64| stands_at(b, off as int, #[trigger] varint_bytes(m)) implies m == n by {
                lemma_varint_at(b, off as int, m);
            };
        }
        Some((n, off + 1))
    } else if tag == 0xfd {
        if len - off < 3 {
            proof {
                assert forall|m: u64| !stands_at(b, off as int, #[trigger] varint_bytes(m)) by {
                    if stands_at(b, off as int, varint_bytes(m)) {
                        lemma_varint_at(b, off as int, m);
                    }
                };
            }
            return None;
        }
        let v = read_u16(bytes, off + 1);
        proof {
            assert forall|m: u64| stands_at(b, off as int, #[trigger] varint_bytes(m)) implies m == v as u64 && 0xfd <= m by {
                lemma_varint_at(b, off as int, m);
                lemma_u16_le_injective(m as u16, v);
            };
        }
        if v < 0xfd {
            return None;
        }
        assert(varint_bytes(v as u64) =~= bytes@.subrange(off as int, off + 3));
        Some((v as u64, off + 3))
    } else if tag == 0xfe {
        if len - off < 5 {
            proof {
                assert forall|m: u64| !stands_at(b, off as int, #[trigger] varint_bytes(m)) by {
                    if stands_at(b, off as int, varint_bytes(m)) {
                        lemma_varint_at(b, off as int, m);
                    }
                };
            }
            return None;
        }
        let v = read_u32(bytes, off + 1);
        proof {
            assert forall|m: u64| stands_at(b, off as int, #[trigger] varint_bytes(m)) implies m == v as u64 && 0xffff < m by {
                lemma_varint_at(b, off as int, m);
                crate::encode::lemma_u32_le_injective(m as u32, v);
            };
        }
        if v <= 0xffff {
            return None;
        }
        assert(varint_bytes(v as u64) =~= bytes@.subrange(off as int, off + 5));
        Some((v as u64, off + 5))
    } else {
        if len - off < 9 {
            proof {
                assert forall|m: u64| !stands_at(b, off as int, #[trigger] varint_bytes(m)) by {
                    if stands_at(b, off as int, varint_bytes(m)) {
                        lemma_varint_at(b, off as int, m);
                    }
                };
            }
            return None;
        }
        let v = read_u64(bytes, off + 1);
        proof {
            assert forall|m: u64| stands_at(b, off as int, #[trigger] varint_bytes(m)) implies m == v && 0xffff_ffff < m by {
                lemma_varint_at(b, off as int, m);
                crate::encode::lemma_u64_le_injective(m, v);
            };
        }
        if v <= 0xffff_ffff {
            return None;
        }
        assert(varint_bytes(v) =~= bytes@.subrange(off as int, off + 9));
        Some((v, off + 9))
    }
}

/// Reads a length-prefixed byte string.
pub fn read_var_bytes(bytes: &Vec<u8>, off: usize) -> (r: Option<(Vec<u8>, usize)>)
    ensures
        r matches Some((v, e)) ==> stands_at(bytes@, off as int, var_bytes(v@)) && e == off
            + var_bytes(v@).len(),
        r matches Some((v, e)) ==> forall|s: Seq<u8>|
            stands_at(bytes@, off as int, #[trigger] var_bytes(s)) ==> s == v@,
        r is None ==> forall|s: Seq<u8>| !stands_at(bytes@, off as int, #[trigger] var_bytes(s)),
{
    let ghost b = bytes@;
    let rv = read_varint(bytes, off);
    match rv {
        None => {
            proof {
                assert forall|s: Seq<u8>| !stands_at(b, off as int, #[trigger] var_bytes(s)) by {
                    lemma_stands_at_concat(b, off as int, varint_bytes(s.len() as u64), s);
                };
            }
            None
        },
        Some((n, p)) => {
            let avail = (bytes.len() - p) as u64;
            if avail < n {
                proof {
                    assert forall|s: Seq<u8>| !stands_at(b, off as int, #[trigger] var_bytes(s)) by {
                        lemma_stands_at_concat(b, off as int, varint_bytes(s.len() as u64), s);
                    };
                }
                return None;
            }
            let n = n as usize;
            let mut v: Vec<u8> = Vec::new();
            let mut i: usize = 0;
            while i < n
                invariant
                    p + n <= bytes.len(),
                    i <= n,
                    v@ == bytes@.subrange(p as int, p + i),
                decreases n - i,
            {
                v.push(bytes[p + i]);
                assert(bytes@.subrange(p as int, p + i + 1) =~= bytes@.subrange(p as int, p + i).push(bytes@[p + i]));
                i = i + 1;
            }
            proof {
                lemma_stands_at_concat(b, off as int, varint_bytes(n as u64), v@);
                assert forall|s: Seq<u8>| stands_at(b, off as int, #[trigger] var_bytes(s)) implies s == v@ by {
                    lemma_stands_at_concat(b, off as int, varint_bytes(s.len() as u64), s);
                };
            }
            Some((v, p + n))
        },
    }
}

/// The fixed-size part of an input's encoding.
pub open spec fn txin_head(u: TxIn) -> Seq<u8> {
    u.previous_out.txid.0@ + u32_le(u.previous_out.vout) + u32_le(u.sequence)
}

proof fn lemma_txin_split(b: Seq<u8>, off: int, u: TxIn)
    ensures
        txin_head(u).len() == 40,
        txin_bytes(u, true) == txin_head(u) + var_bytes(u.sig_script@),
        stands_at(b, off, txin_bytes(u, true)) == (stands_at(b, off, txin_head(u)) && stands_at(
            b,
            off + 40,
            var_bytes(u.sig_script@),
        )),
        stands_at(b, off, txin_head(u)) ==> txin_head(u) == b.subrange(off, off + 40),
{
    assert(txin_bytes(u, true) =~= txin_head(u) + var_bytes(u.sig_script@));
    lemma_stands_at_concat(b, off, txin_head(u), var_bytes(u.sig_script@));
}

/// Reads an input; its bookkeeping value, which is not encoded, is zero.
pub fn read_txin(bytes: &Vec<u8>, off: usize) -> (r: Option<(TxIn, usize)>)
    ensures
        r matches Some((t, e)) ==> stands_at(bytes@, off as int, txin_bytes(t, true)) && e == off
            + txin_bytes(t, true).len() && t.value_in == 0,
        r matches Some((t, e)) ==> forall|u: TxIn|
            stands_at(bytes@, off as int, #[trigger] txin_bytes(u, true)) ==> txin_bytes(u, true)
                == txin_bytes(t, true),
        r is None ==> forall|u: TxIn| !stands_at(bytes@, off as int, #[trigger] txin_bytes(u, true)),
{
    let ghost b = bytes@;
    if off > bytes.len() || bytes.len() - off < 40 {
        proof {
            assert forall|u: TxIn| !stands_at(b, off as int, #[trigger] txin_bytes(u, true)) by {};
        }
        return None;
    }
    let txid = read_hash(bytes, off);
    let vout = read_u32(bytes, off + 32);
    let sequence = read_u32(bytes, off + 36);
    let ghost head = b.subrange(off as int, off + 40);
    assert(txid.0@ + u32_le(vout) + u32_le(sequence) =~= head);
    proof {
        assert forall|u: TxIn| stands_at(b, off as int, #[trigger] txin_bytes(u, true)) implies stands_at(
            b,
            off + 40,
            var_bytes(u.sig_script@),
        ) && txin_head(u) == head by {
            lemma_txin_split(b, off as int, u);
        };
    }
    match read_var_bytes(bytes, off + 40) {
        None => None,
        Some((script, e)) => {
            let t = TxIn {
                previous_out: OutPoint { txid, vout },
                sequence,
                value_in: 0,
                sig_script: script,
            };
            proof {
                lemma_txin_split(b, off as int, t);
                assert(txin_head(t) == head);
                assert forall|u: TxIn| stands_at(b, off as int, #[trigger] txin_bytes(u, true)) implies txin_bytes(u, true)
                    == txin_bytes(t, true) by {
                    lemma_txin_split(b, off as int, u);
                };
            }
            Some((t, e))
        },
    }
}

/// Reads an output.
pub fn read_txout(bytes: &Vec<u8>, off: usize) -> (r: Option<(TxOut, usize)>)
    ensures
        r matches Some((t, e)) ==> stands_at(bytes@, off as int, txout_bytes(t)) && e == off
            + txout_bytes(t).len(),
        r matches Some((t, e)) ==> forall|u: TxOut|
            stands_at(bytes@, off as int, #[trigger] txout_bytes(u)) ==> txout_bytes(u) == txout_bytes(t),
        r is None ==> forall|u: TxOut| !stands_at(bytes@, off as int, #[trigger] txout_bytes(u)),
{
    let ghost b = bytes@;
    if off > bytes.len() || bytes.len() - off < 8 {
        return None;
    }
    let value_out = read_u64(bytes, off);
    let ghost head = b.subrange(off as int, off + 8);
    proof {
        assert forall|u: TxOut| (stands_at(b, off as int, #[trigger] txout_bytes(u)) ==> stands_at(b, off + 8, var_bytes(u.pkscript@)) && u64_le(u.value_out) == head) by {
            lemma_stands_at_concat(b, off as int, u64_le(u.value_out), var_bytes(u.pkscript@));
        };
    }
    match read_var_bytes(bytes, off + 8) {
        None => None,
        Some((script, e)) => {
            let t = TxOut { value_out, pkscript: script };
            proof {
                lemma_stands_at_concat(b, off as int, head, var_bytes(t.pkscript@));
            }
            Some((t, e))
        },
    }
}

proof fn lemma_inputs_concat(x: Seq<TxIn>, y: Seq<TxIn>)
    ensures
        inputs_bytes(x + y, true) == inputs_bytes(x, true) + inputs_bytes(y, true),
    decreases y.len(),
{
    if y.len() == 0 {
        assert(x + y =~= x);
        assert(inputs_bytes(x, true) + inputs_bytes(y, true) =~= inputs_bytes(x, true));
    } else {
        assert((x + y).drop_last() =~= x + y.drop_last());
        assert((x + y).last() == y.last());
        lemma_inputs_concat(x, y.drop_last());
        assert(inputs_bytes(x + y, true) =~= inputs_bytes(x, true) + inputs_bytes(y, true));
    }
}

proof fn lemma_inputs_step(s: Seq<TxIn>, i: int)
    requires
        0 <= i < s.len(),
    ensures
        inputs_bytes(s, true) == inputs_bytes(s.take(i), true) + txin_bytes(s[i], true) + inputs_bytes(s.skip(i + 1), true),
        inputs_bytes(s.take(i + 1), true) == inputs_bytes(s.take(i), true) + txin_bytes(s[i], true),
{
    assert(s.take(i + 1).drop_last() =~= s.take(i));
    assert(s =~= s.take(i + 1) + s.skip(i + 1));
    lemma_inputs_concat(s.take(i + 1), s.skip(i + 1));
}

/// Reads `n` inputs one after another.
#[verifier::spinoff_prover]
#[verifier::rlimit(60)]
pub fn read_inputs(bytes: &Vec<u8>, off: usize, n: u64) -> (r: Option<(Vec<TxIn>, usize)>)
    ensures
        r matches Some((v, e)) ==> v.len() == n && stands_at(bytes@, off as int, inputs_bytes(v@, true))
            && e == off + inputs_bytes(v@, true).len(),
        r matches Some((v, e)) ==> forall|s: Seq<TxIn>|
            s.len() == n && stands_at(bytes@, off as int, #[trigger] inputs_bytes(s, true)) ==> inputs_bytes(s, true)
                == inputs_bytes(v@, true),
        r is None ==> forall|s: Seq<TxIn>|
            s.len() == n ==> !stands_at(bytes@, off as int, #[trigger] inputs_bytes(s, true)),
{
    let ghost b = bytes@;
    let mut v: Vec<TxIn> = Vec::new();
    let mut pos = off;
    let mut i: u64 = 0;
    if off > bytes.len() {
        return None;
    }
    proof {
        assert(b.subrange(off as int, off as int) =~= Seq::<u8>::empty());
        assert forall|s: Seq<TxIn>| s.len() == n && stands_at(b, off as int, #[trigger] inputs_bytes(s, true)) implies inputs_bytes(
            s.take(0), true,
        ) == inputs_bytes(v@, true) by {
            assert(s.take(0) =~= Seq::<TxIn>::empty());
        };
    }
    while i < n
        invariant
            i <= n,
            v.len() == i,
            stands_at(b, off as int, inputs_bytes(v@, true)),
            pos == off + inputs_bytes(v@, true).len(),
            b == bytes@,
            forall|s: Seq<TxIn>|
                s.len() == n && stands_at(b, off as int, #[trigger] inputs_bytes(s, true)) ==> inputs_bytes(
                    s.take(i as int), true,
                ) == inputs_bytes(v@, true),
        decreases n - i,
    {
        let ghost w = v@;
        match read_txin(bytes, pos) {
            None => {
                proof {
                    assert forall|s: Seq<TxIn>| s.len() == n implies !stands_at(b, off as int, #[trigger] inputs_bytes(s, true)) by {
                        if stands_at(b, off as int, inputs_bytes(s, true)) {
                            lemma_inputs_step(s, i as int);
                            lemma_stands_at_concat(b, off as int, inputs_bytes(s.take(i as int), true), txin_bytes(s[i as int], true) + inputs_bytes(s.skip(i + 1), true));
                            lemma_stands_at_concat(b, pos as int, txin_bytes(s[i as int], true), inputs_bytes(s.skip(i + 1), true));
                            assert(inputs_bytes(s.take(i as int), true) + txin_bytes(s[i as int], true) + inputs_bytes(s.skip(i + 1), true) =~= inputs_bytes(s.take(i as int), true) + (txin_bytes(s[i as int], true) + inputs_bytes(s.skip(i + 1), true)));
                        }
                    };
                }
                return None;
            },
            Some((t, e)) => {
                v.push(t);
                proof {
                    assert(v@ == w.push(t));
                    assert(v@.drop_last() =~= w);
                    lemma_stands_at_concat(b, off as int, inputs_bytes(w, true), txin_bytes(t, true));
                    assert forall|s: Seq<TxIn>| s.len() == n && stands_at(b, off as int, #[trigger] inputs_bytes(s, true)) implies inputs_bytes(
                        s.take(i + 1), true,
                    ) == inputs_bytes(v@, true) by {
                        lemma_inputs_step(s, i as int);
                        lemma_stands_at_concat(b, off as int, inputs_bytes(s.take(i as int), true), txin_bytes(s[i as int], true) + inputs_bytes(s.skip(i + 1), true));
                        lemma_stands_at_concat(b, pos as int, txin_bytes(s[i as int], true), inputs_bytes(s.skip(i + 1), true));
                        assert(inputs_bytes(s.take(i as int), true) + txin_bytes(s[i as int], true) + inputs_bytes(s.skip(i + 1), true) =~= inputs_bytes(s.take(i as int), true) + (txin_bytes(s[i as int], true) + inputs_bytes(s.skip(i + 1), true)));
                    };
                }
                pos = e;
                i = i + 1;
            },
        }
    }
    proof {
        assert forall|s: Seq<TxIn>| s.len() == n && stands_at(b, off as int, #[trigger] inputs_bytes(s, true)) implies inputs_bytes(s, true)
            == inputs_bytes(v@, true) by {
            assert(s.take(n as int) =~= s);
        };
    }
    Some((v, pos))
}

proof fn lemma_outputs_concat(x: Seq<TxOut>, y: Seq<TxOut>)
    ensures
        outputs_bytes(x + y) == outputs_bytes(x) + outputs_bytes(y),
    decreases y.len(),
{
    if y.len() == 0 {
        assert(x + y =~= x);
        assert(outputs_bytes(x) + outputs_bytes(y) =~= outputs_bytes(x));
    } else {
        assert((x + y).drop_last() =~= x + y.drop_last());
        assert((x + y).last() == y.last());
        lemma_outputs_concat(x, y.drop_last());
        assert(outputs_bytes(x + y) =~= outputs_bytes(x) + outputs_bytes(y));
    }
}

proof fn lemma_outputs_step(s: Seq<TxOut>, i: int)
    requires
        0 <= i < s.len(),
    ensures
        outputs_bytes(s) == outputs_bytes(s.take(i)) + txout_bytes(s[i]) + outputs_bytes(s.skip(i + 1)),
        outputs_bytes(s.take(i + 1)) == outputs_bytes(s.take(i)) + txout_bytes(s[i]),
{
    assert(s.take(i + 1).drop_last() =~= s.take(i));
    assert(s =~= s.take(i + 1) + s.skip(i + 1));
    lemma_outputs_concat(s.take(i + 1), s.skip(i + 1));
}

/// Reads `n` outputs one after another.
#[verifier::spinoff_prover]
#[verifier::rlimit(60)]
pub fn read_outputs(bytes: &Vec<u8>, off: usize, n: u64) -> (r: Option<(Vec<TxOut>, usize)>)
    ensures
        r matches Some((v, e)) ==> v.len() == n && stands_at(bytes@, off as int, outputs_bytes(v@))
            && e == off + outputs_bytes(v@).len(),
        r matches Some((v, e)) ==> forall|s: Seq<TxOut>|
            s.len() == n && stands_at(bytes@, off as int, #[trigger] outputs_bytes(s)) ==> outputs_bytes(s)
                == outputs_bytes(v@),
        r is None ==> forall|s: Seq<TxOut>|
            s.len() == n ==> !stands_at(bytes@, off as int, #[trigger] outputs_bytes(s)),
{
    let ghost b = bytes@;
    let mut v: Vec<TxOut> = Vec::new();
    let mut pos = off;
    let mut i: u64 = 0;
    if off > bytes.len() {
        return None;
    }
    proof {
        assert(b.subrange(off as int, off as int) =~= Seq::<u8>::empty());
        assert forall|s: Seq<TxOut>| s.len() == n && stands_at(b, off as int, #[trigger] outputs_bytes(s)) implies outputs_bytes(
            s.take(0),
        ) == outputs_bytes(v@) by {
            assert(s.take(0) =~= Seq::<TxOut>::empty());
        };
    }
    while i < n
        invariant
            i <= n,
            v.len() == i,
            stands_at(b, off as int, outputs_bytes(v@)),
            pos == off + outputs_bytes(v@).len(),
            b == bytes@,
            forall|s: Seq<TxOut>|
                s.len() == n && stands_at(b, off as int, #[trigger] outputs_bytes(s)) ==> outputs_bytes(
                    s.take(i as int),
                ) == outputs_bytes(v@),
        decreases n - i,
    {
        let ghost w = v@;
        match read_txout(bytes, pos) {
            None => {
                proof {
                    assert forall|s: Seq<TxOut>| s.len() == n implies !stands_at(b, off as int, #[trigger] outputs_bytes(s)) by {
                        if stands_at(b, off as int, outputs_bytes(s)) {
                            lemma_outputs_step(s, i as int);
                            lemma_stands_at_concat(b, off as int, outputs_bytes(s.take(i as int)), txout_bytes(s[i as int]) + outputs_bytes(s.skip(i + 1)));
                            lemma_stands_at_concat(b, pos as int, txout_bytes(s[i as int]), outputs_bytes(s.skip(i + 1)));
                            assert(outputs_bytes(s.take(i as int)) + txout_bytes(s[i as int]) + outputs_bytes(s.skip(i + 1)) =~= outputs_bytes(s.take(i as int)) + (txout_bytes(s[i as int]) + outputs_bytes(s.skip(i + 1))));
                        }
                    };
                }
                return None;
            },
            Some((t, e)) => {
                v.push(t);
                proof {
                    assert(v@ == w.push(t));
                    assert(v@.drop_last() =~= w);
                    lemma_stands_at_concat(b, off as int, outputs_bytes(w), txout_bytes(t));
                    assert forall|s: Seq<TxOut>| s.len() == n && stands_at(b, off as int, #[trigger] outputs_bytes(s)) implies outputs_bytes(
                        s.take(i + 1),
                    ) == outputs_bytes(v@) by {
                        lemma_outputs_step(s, i as int);
                        lemma_stands_at_concat(b, off as int, outputs_bytes(s.take(i as int)), txout_bytes(s[i as int]) + outputs_bytes(s.skip(i + 1)));
                        lemma_stands_at_concat(b, pos as int, txout_bytes(s[i as int]), outputs_bytes(s.skip(i + 1)));
                        assert(outputs_bytes(s.take(i as int)) + txout_bytes(s[i as int]) + outputs_bytes(s.skip(i + 1)) =~= outputs_bytes(s.take(i as int)) + (txout_bytes(s[i as int]) + outputs_bytes(s.skip(i + 1))));
                    };
                }
                pos = e;
                i = i + 1;
            },
        }
    }
    proof {
        assert forall|s: Seq<TxOut>| s.len() == n && stands_at(b, off as int, #[trigger] outputs_bytes(s)) implies outputs_bytes(s)
            == outputs_bytes(v@) by {
            assert(s.take(n as int) =~= s);
        };
    }
    Some((v, pos))
}

/// Where the parts of a transaction's encoding stand.
proof fn lemma_tx_split(b: Seq<u8>, tx: Transaction)
    requires
        tx_bytes(tx, true) == b,
    ensures
        ({
            let c = varint_bytes(tx.input_ent.len() as u64);
            let d = inputs_bytes(tx.input_ent@, true);
            let e = varint_bytes(tx.output_ent.len() as u64);
            let f = outputs_bytes(tx.output_ent@);
            &&& b.len() >= 8
            &&& stands_at(b, 8, c)
            &&& stands_at(b, (8 + c.len()) as int, d)
            &&& stands_at(b, (8 + c.len() + d.len()) as int, e)
            &&& stands_at(b, (8 + c.len() + d.len() + e.len()) as int, f)
            &&& b.len() == 8 + c.len() + d.len() + e.len() + f.len()
        }),
{
    let a = u32_le(tx.version) + u32_le(tx.lock_time);
    let c = varint_bytes(tx.input_ent.len() as u64);
    let d = inputs_bytes(tx.input_ent@, true);
    let e = varint_bytes(tx.output_ent.len() as u64);
    let f = outputs_bytes(tx.output_ent@);
    assert(b =~= a + (c + (d + (e + f))));
    assert(b.subrange(0, b.len() as int) =~= b);
    lemma_stands_at_concat(b, 0, a, c + (d + (e + f)));
    lemma_stands_at_concat(b, 8, c, d + (e + f));
    lemma_stands_at_concat(b, (8 + c.len()) as int, d, e + f);
    lemma_stands_at_concat(b, (8 + c.len() + d.len()) as int, e, f);
}

impl Transaction {
    /// Reads a transaction from exactly its canonical encoding.
    #[verifier::spinoff_prover]
    #[verifier::rlimit(60)]
    pub fn decode(bytes: &Vec<u8>) -> (r: Result<Transaction, Error>)
        ensures
            r matches Ok(tx) ==> tx_bytes(tx, true) == bytes@,
            r is Err ==> r == Err::<Transaction, Error>(Error::DecodeError),
            r is Err ==> forall|tx: Transaction| #[trigger] tx_bytes(tx, true) != bytes@,
    {
        let ghost b = bytes@;
        if bytes.len() < 8 {
            proof {
                assert forall|tx: Transaction| #[trigger] tx_bytes(tx, true) != b by {
                    if tx_bytes(tx, true) == b {
                        lemma_tx_split(b, tx);
                    }
                };
            }
            return Err(Error::DecodeError);
        }
        let version = read_u32(bytes, 0);
        let lock_time = read_u32(bytes, 4);
        let (n_in, p1) = match read_varint(bytes, 8) {
            None => {
                proof {
                    assert forall|tx: Transaction| #[trigger] tx_bytes(tx, true) != b by {
                        if tx_bytes(tx, true) == b {
                            lemma_tx_split(b, tx);
                        }
                    };
                }
                return Err(Error::DecodeError);
            },
            Some(x) => x,
        };
        let (inputs, p2) = match read_inputs(bytes, p1, n_in) {
            None => {
                proof {
                    assert forall|tx: Transaction| #[trigger] tx_bytes(tx, true) != b by {
                        if tx_bytes(tx, true) == b {
                            lemma_tx_split(b, tx);
                        }
                    };
                }
                return Err(Error::DecodeError);
            },
            Some(x) => x,
        };
        let (n_out, p3) = match read_varint(bytes, p2) {
            None => {
                proof {
                    assert forall|tx: Transaction| #[trigger] tx_bytes(tx, true) != b by {
                        if tx_bytes(tx, true) == b {
                            lemma_tx_split(b, tx);
                        }
                    };
                }
                return Err(Error::DecodeError);
            },
            Some(x) => x,
        };
        let (outputs, p4) = match read_outputs(bytes, p3, n_out) {
            None => {
                proof {
                    assert forall|tx: Transaction| #[trigger] tx_bytes(tx, true) != b by {
                        if tx_bytes(tx, true) == b {
                            lemma_tx_split(b, tx);
                        }
                    };
                }
                return Err(Error::DecodeError);
            },
            Some(x) => x,
        };
        if p4 != bytes.len() {
            proof {
                assert forall|tx: Transaction| #[trigger] tx_bytes(tx, true) != b by {
                    if tx_bytes(tx, true) == b {
                        lemma_tx_split(b, tx);
                    }
                };
            }
            return Err(Error::DecodeError);
        }
        let tx = Transaction { version, lock_time, input_ent: inputs, output_ent: outputs };
        proof {
            assert(b =~= b.subrange(0, 4) + b.subrange(4, 8) + b.subrange(8, p1 as int) + b.subrange(
                p1 as int,
                p2 as int,
            ) + b.subrange(p2 as int, p3 as int) + b.subrange(p3 as int, p4 as int));
            assert(tx_bytes(tx, true) =~= b);
        }
        Ok(tx)
    }
}

} // verus!
