use vstd::prelude::*;

verus! {

/// The views of a sequence of byte vectors.
pub open spec fn views(vs: Seq<Vec<u8>>) -> Seq<Seq<u8>> {
    vs.map_values(|v: Vec<u8>| v@)
}

/// Fields of `s` delimited by `sep`; always at least one field.
pub open spec fn split_bytes(s: Seq<u8>, sep: u8) -> Seq<Seq<u8>>
    decreases s.len(),
{
    if s.len() == 0 {
        seq![Seq::<u8>::empty()]
    } else {
        let r = split_bytes(s.drop_first(), sep);
        if s[0] == sep {
            seq![Seq::<u8>::empty()] + r
        } else {
            seq![seq![s[0]] + r[0]] + r.drop_first()
        }
    }
}

pub proof fn lemma_split_nonempty(s: Seq<u8>, sep: u8)
    ensures
        split_bytes(s, sep).len() >= 1,
    decreases s.len(),
{
    if s.len() > 0 {
        lemma_split_nonempty(s.drop_first(), sep);
    }
}

/// Splits a byte string on a separator, exactly as `split_bytes` does.
pub fn split_exec(s: &Vec<u8>, sep: u8) -> (r: Vec<Vec<u8>>)
    ensures
        views(r@) =~= split_bytes(s@, sep),
{
    let mut fields: Vec<Vec<u8>> = Vec::new();
    let mut cur: Vec<u8> = Vec::new();
    let mut i: usize = 0;
    proof {
        lemma_split_nonempty(s@, sep);
        assert(s@.skip(0) =~= s@);
        assert(split_bytes(s@, sep) =~= views(fields@) + seq![
            cur@ + split_bytes(s@.skip(0), sep)[0],
        ] + split_bytes(s@.skip(0), sep).drop_first()) by {
            assert(cur@ + split_bytes(s@, sep)[0] =~= split_bytes(s@, sep)[0]);
            assert(views(fields@) =~= Seq::<Seq<u8>>::empty());
        }
    }
    while i < s.len()
        invariant
            0 <= i <= s@.len(),
            split_bytes(s@, sep) =~= views(fields@) + seq![
                cur@ + split_bytes(s@.skip(i as int), sep)[0],
            ] + split_bytes(s@.skip(i as int), sep).drop_first(),
        decreases s@.len() - i,
    {
        let b = s[i];
        proof {
            let tail = s@.skip(i + 1);
            lemma_split_nonempty(tail, sep);
            assert(s@.skip(i as int).len() > 0);
            assert(s@.skip(i as int)[0] == s@[i as int]);
            assert(s@.skip(i as int).drop_first() =~= tail);
        }
        if b == sep {
            fields.push(cur);
            cur = Vec::new();
            proof {
                let tail = s@.skip(i + 1);
                let r = split_bytes(tail, sep);
                assert(split_bytes(s@.skip(i as int), sep) == seq![Seq::<u8>::empty()] + r);
                assert(split_bytes(s@.skip(i as int), sep)[0] =~= Seq::<u8>::empty());
                assert(cur@ + r[0] =~= r[0]);
                assert((seq![Seq::<u8>::empty()] + r).drop_first() =~= r);
                assert(r =~= seq![r[0]] + r.drop_first());
            }
        } else {
            proof {
                let tail = s@.skip(i + 1);
                let r = split_bytes(tail, sep);
                assert(split_bytes(s@.skip(i as int), sep) == seq![seq![s@[i as int]] + r[0]]
                    + r.drop_first());
                assert(cur@ + (seq![b] + r[0]) =~= cur@.push(b) + r[0]);
                assert((seq![seq![s@[i as int]] + r[0]] + r.drop_first()).drop_first() =~= r.drop_first());
            }
            cur.push(b);
        }
        i = i + 1;
    }
    proof {
        assert(s@.skip(s@.len() as int) =~= Seq::<u8>::empty());
        assert(split_bytes(Seq::<u8>::empty(), sep) == seq![Seq::<u8>::empty()]);
        assert(cur@ + Seq::<u8>::empty() =~= cur@);
        assert(views(fields@.push(cur)) =~= views(fields@).push(cur@));
    }
    fields.push(cur);
    fields
}

/// Parts joined with `sep` between consecutive parts.
pub open spec fn join_bytes(parts: Seq<Seq<u8>>, sep: u8) -> Seq<u8>
    decreases parts.len(),
{
    if parts.len() == 0 {
        Seq::empty()
    } else if parts.len() == 1 {
        parts[0]
    } else {
        parts[0] + seq![sep] + join_bytes(parts.drop_first(), sep)
    }
}

pub proof fn lemma_join_push(parts: Seq<Seq<u8>>, p: Seq<u8>, sep: u8)
    ensures
        join_bytes(parts.push(p), sep) =~= if parts.len() == 0 {
            p
        } else {
            join_bytes(parts, sep) + seq![sep] + p
        },
    decreases parts.len(),
{
    if parts.len() == 0 {
        assert(parts.push(p)[0] =~= p);
    } else {
        lemma_join_push(parts.drop_first(), p, sep);
        assert(parts.push(p).drop_first() =~= parts.drop_first().push(p));
        assert(parts.push(p)[0] == parts[0]);
        if parts.len() == 1 {
            assert(parts.drop_first().len() == 0);
        }
    }
}

/// Appends all of `p` to `out`.
pub fn push_all(out: &mut Vec<u8>, p: &Vec<u8>)
    ensures
        final(out)@ == old(out)@ + p@,
{
    let mut i: usize = 0;
    while i < p.len()
        invariant
            0 <= i <= p@.len(),
            out@ =~= old(out)@ + p@.take(i as int),
        decreases p@.len() - i,
    {
        out.push(p[i]);
        proof {
            assert(old(out)@ + p@.take(i + 1) =~= (old(out)@ + p@.take(i as int)).push(p@[i as int]));
        }
        i = i + 1;
    }
    proof {
        assert(p@.take(p@.len() as int) =~= p@);
    }
}

/// Joins parts with a separator, exactly as `join_bytes` does.
pub fn join_exec(parts: &Vec<Vec<u8>>, sep: u8) -> (r: Vec<u8>)
    ensures
        r@ =~= join_bytes(views(parts@), sep),
{
    let mut out: Vec<u8> = Vec::new();
    let mut i: usize = 0;
    while i < parts.len()
        invariant
            0 <= i <= parts@.len(),
            out@ =~= join_bytes(views(parts@.take(i as int)), sep),
        decreases parts@.len() - i,
    {
        if i > 0 {
            out.push(sep);
        }
        push_all(&mut out, &parts[i]);
        proof {
            assert(views(parts@.take(i + 1)) =~= views(parts@.take(i as int)).push(parts@[i as int]@));
            lemma_join_push(views(parts@.take(i as int)), parts@[i as int]@, sep);
        }
        i = i + 1;
    }
    proof {
        assert(parts@.take(parts@.len() as int) =~= parts@);
    }
    out
}

/// A fresh copy of a byte string.
pub fn bytes_copy(v: &Vec<u8>) -> (r: Vec<u8>)
    ensures
        r@ == v@,
{
    let mut out: Vec<u8> = Vec::new();
    push_all(&mut out, v);
    proof {
        assert(Seq::<u8>::empty() + v@ =~= v@);
    }
    out
}

/// True byte-for-byte equality.
pub fn bytes_eq(a: &Vec<u8>, b: &Vec<u8>) -> (r: bool)
    ensures
        r == (a@ == b@),
{
    if a.len() != b.len() {
        assert(a@.len() != b@.len());
        return false;
    }
    let mut i: usize = 0;
    while i < a.len()
        invariant
            0 <= i <= a@.len(),
            a@.len() == b@.len(),
            forall|j: int| 0 <= j < i ==> a@[j] == b@[j],
        decreases a@.len() - i,
    {
        if a[i] != b[i] {
            return false;
        }
        i = i + 1;
    }
    proof {
        assert(a@ =~= b@);
    }
    true
}

} // verus!
