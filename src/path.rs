//! Path folding: splitting an OS byte path into components and folding the
//! ASCII letters of each to lower case.
use vstd::prelude::*;

verus! {

/// The byte `/`.
pub const SEPARATOR: u8 = 47;

/// The byte `.`.
pub const DOT: u8 = 46;

/// ASCII case folding of one byte: only `A`..=`Z` change.
pub open spec fn fold_byte(b: u8) -> u8 {
    if 65 <= b && b <= 90 {
        (b + 32) as u8
    } else {
        b
    }
}

pub open spec fn fold_bytes(s: Seq<u8>) -> Seq<u8> {
    s.map_values(|b: u8| fold_byte(b))
}

/// A piece between separators counts as a component unless it is empty or
/// a lone dot.
pub open spec fn is_component(c: Seq<u8>) -> bool {
    c.len() > 0 && c != seq![DOT]
}

pub open spec fn flush(done: Seq<Seq<u8>>, cur: Seq<u8>) -> Seq<Seq<u8>> {
    if is_component(cur) {
        done.push(cur)
    } else {
        done
    }
}

/// The components finished after reading `p`, and the piece still open.
pub open spec fn split_state(p: Seq<u8>) -> (Seq<Seq<u8>>, Seq<u8>)
    decreases p.len(),
{
    if p.len() == 0 {
        (Seq::empty(), Seq::empty())
    } else {
        let (done, cur) = split_state(p.drop_last());
        if p.last() == SEPARATOR {
            (flush(done, cur), Seq::empty())
        } else {
            (done, cur.push(p.last()))
        }
    }
}

/// The components of a path; a leading separator, repeated separators and
/// `.` pieces leave no component.
pub open spec fn components(p: Seq<u8>) -> Seq<Seq<u8>> {
    flush(split_state(p).0, split_state(p).1)
}

/// The folded form of a path: its components, each ASCII-folded.
pub open spec fn fold_path(p: Seq<u8>) -> Seq<Seq<u8>> {
    components(p).map_values(|c: Seq<u8>| fold_bytes(c))
}

pub open spec fn views(v: Seq<Vec<u8>>) -> Seq<Seq<u8>> {
    v.map_values(|c: Vec<u8>| c@)
}

/// Two paths that differ only in the case of their ASCII letters.
pub open spec fn same_but_case(p: Seq<u8>, q: Seq<u8>) -> bool {
    p.len() == q.len() && forall|i: int| 0 <= i < p.len() ==> fold_byte(#[trigger] p[i]) == fold_byte(q[i])
}

pub fn fold_ascii(b: u8) -> (r: u8)
    ensures
        r == fold_byte(b),
{
    if 65 <= b && b <= 90 {
        b + 32
    } else {
        b
    }
}

pub fn fold_component(c: &Vec<u8>) -> (r: Vec<u8>)
    ensures
        r@ == fold_bytes(c@),
{
    let mut r: Vec<u8> = Vec::new();
    let mut i: usize = 0;
    while i < c.len()
        invariant
            0 <= i <= c.len(),
            r@ == fold_bytes(c@.take(i as int)),
        decreases c.len() - i,
    {
        let b = fold_ascii(c[i]);
        r.push(b);
        i += 1;
        proof {
            assert(fold_bytes(c@.take(i as int)) =~= fold_bytes(c@.take(i - 1)).push(fold_byte(c@[i - 1])));
        }
    }
    proof {
        assert(c@.take(c@.len() as int) =~= c@);
    }
    r
}

fn is_component_exec(c: &Vec<u8>) -> (r: bool)
    ensures
        r == is_component(c@),
{
    if c.len() == 0 {
        false
    } else if c.len() == 1 && c[0] == DOT {
        assert(c@ =~= seq![DOT]);
        false
    } else {
        assert(c@.len() == 1 ==> c@[0] != DOT);
        true
    }
}

/// Splits a path into its components, keeping the case of every byte.
pub fn components_of(p: &Vec<u8>) -> (r: Vec<Vec<u8>>)
    ensures
        views(r@) == components(p@),
{
    let mut done: Vec<Vec<u8>> = Vec::new();
    let mut cur: Vec<u8> = Vec::new();
    let mut i: usize = 0;
    while i < p.len()
        invariant
            0 <= i <= p.len(),
            views(done@) == split_state(p@.take(i as int)).0,
            cur@ == split_state(p@.take(i as int)).1,
        decreases p.len() - i,
    {
        let b = p[i];
        proof {
            assert(p@.take(i + 1).drop_last() =~= p@.take(i as int));
        }
        if b == SEPARATOR {
            if is_component_exec(&cur) {
                let ghost d = done@;
                done.push(cur);
                assert(views(done@) =~= views(d).push(split_state(p@.take(i as int)).1));
            }
            cur = Vec::new();
        } else {
            cur.push(b);
        }
        i += 1;
    }
    proof {
        assert(p@.take(p@.len() as int) =~= p@);
    }
    if is_component_exec(&cur) {
        let ghost d = done@;
        done.push(cur);
        assert(views(done@) =~= views(d).push(split_state(p@).1));
    }
    done
}

/// The folded form of a path: its components with ASCII letters in lower
/// case.
pub fn fold(p: &Vec<u8>) -> (r: Vec<Vec<u8>>)
    ensures
        views(r@) == fold_path(p@),
{
    let comps = components_of(p);
    let mut r: Vec<Vec<u8>> = Vec::new();
    let mut i: usize = 0;
    while i < comps.len()
        invariant
            0 <= i <= comps.len(),
            views(comps@) == components(p@),
            views(r@) == views(comps@.take(i as int)).map_values(|c: Seq<u8>| fold_bytes(c)),
        decreases comps.len() - i,
    {
        let f = fold_component(&comps[i]);
        let ghost r0 = r@;
        r.push(f);
        i += 1;
        assert(views(comps@.take(i as int)) =~= views(comps@.take(i - 1)).push(comps@[i - 1]@));
        assert(views(r@) =~= views(r0).push(f@));
        assert(views(r@) =~= views(comps@.take(i as int)).map_values(|c: Seq<u8>| fold_bytes(c)));
    }
    assert(comps@.take(comps@.len() as int) =~= comps@);
    r
}

/// Folded pieces of a splitting state.
spec fn folded_state(st: (Seq<Seq<u8>>, Seq<u8>)) -> (Seq<Seq<u8>>, Seq<u8>) {
    (st.0.map_values(|c: Seq<u8>| fold_bytes(c)), fold_bytes(st.1))
}

proof fn lemma_fold_keeps_component(a: Seq<u8>, b: Seq<u8>)
    requires
        fold_bytes(a) == fold_bytes(b),
    ensures
        is_component(a) == is_component(b),
{
    assert(fold_bytes(a).len() == a.len() && fold_bytes(b).len() == b.len());
    if a.len() == 1 && b.len() == 1 {
        assert(fold_bytes(a)[0] == fold_byte(a[0]) && fold_bytes(b)[0] == fold_byte(b[0]));
        if a =~= seq![DOT] {
            assert(b =~= seq![DOT]);
        }
        if b =~= seq![DOT] {
            assert(a =~= seq![DOT]);
        }
    }
}

proof fn lemma_split_same_but_case(p: Seq<u8>, q: Seq<u8>)
    requires
        same_but_case(p, q),
    ensures
        folded_state(split_state(p)) == folded_state(split_state(q)),
    decreases p.len(),
{
    if p.len() > 0 {
        let p0 = p.drop_last();
        let q0 = q.drop_last();
        assert forall|i: int| 0 <= i < p0.len() implies fold_byte(#[trigger] p0[i]) == fold_byte(q0[i]) by {
            assert(p0[i] == p[i] && q0[i] == q[i]);
        }
        lemma_split_same_but_case(p0, q0);
        let (d1, c1) = split_state(p0);
        let (d2, c2) = split_state(q0);
        assert(fold_byte(p.last()) == fold_byte(q.last()));
        assert((p.last() == SEPARATOR) == (q.last() == SEPARATOR));
        if p.last() == SEPARATOR {
            lemma_fold_keeps_component(c1, c2);
            if is_component(c1) {
                assert(d1.push(c1).map_values(|c: Seq<u8>| fold_bytes(c)) =~= d1.map_values(|c: Seq<u8>| fold_bytes(c)).push(fold_bytes(c1)));
                assert(d2.push(c2).map_values(|c: Seq<u8>| fold_bytes(c)) =~= d2.map_values(|c: Seq<u8>| fold_bytes(c)).push(fold_bytes(c2)));
            }
            assert(fold_bytes(Seq::<u8>::empty()) =~= Seq::<u8>::empty());
        } else {
            assert(fold_bytes(c1.push(p.last())) =~= fold_bytes(c1).push(fold_byte(p.last())));
            assert(fold_bytes(c2.push(q.last())) =~= fold_bytes(c2).push(fold_byte(q.last())));
        }
    }
}

/// Paths that differ only in the case of their ASCII letters have the same
/// folded form.
pub proof fn lemma_fold_ignores_case(p: Seq<u8>, q: Seq<u8>)
    requires
        same_but_case(p, q),
    ensures
        fold_path(p) == fold_path(q),
{
    lemma_split_same_but_case(p, q);
    let (d1, c1) = split_state(p);
    let (d2, c2) = split_state(q);
    lemma_fold_keeps_component(c1, c2);
    if is_component(c1) {
        assert(d1.push(c1).map_values(|c: Seq<u8>| fold_bytes(c)) =~= d1.map_values(|c: Seq<u8>| fold_bytes(c)).push(fold_bytes(c1)));
        assert(d2.push(c2).map_values(|c: Seq<u8>| fold_bytes(c)) =~= d2.map_values(|c: Seq<u8>| fold_bytes(c)).push(fold_bytes(c2)));
    }
}

/// Folding is idempotent: a path whose letters were folded first has the
/// same folded form, and folding a folded component leaves it unchanged.
pub proof fn lemma_fold_idempotent(p: Seq<u8>, c: Seq<u8>)
    ensures
        fold_path(fold_bytes(p)) == fold_path(p),
        fold_bytes(fold_bytes(c)) == fold_bytes(c),
{
    assert forall|i: int| 0 <= i < p.len() implies fold_byte(#[trigger] p[i]) == fold_byte(fold_bytes(p)[i]) by {
        assert(fold_bytes(p)[i] == fold_byte(p[i]));
    }
    lemma_fold_ignores_case(p, fold_bytes(p));
    assert(fold_bytes(fold_bytes(c)) =~= fold_bytes(c));
}

proof fn lemma_split_grows(p: Seq<u8>, q: Seq<u8>)
    ensures
        split_state(p).0.len() <= split_state(p + q).0.len(),
    decreases q.len(),
{
    if q.len() == 0 {
        assert(p + q =~= p);
    } else {
        assert((p + q).drop_last() =~= p + q.drop_last());
        lemma_split_grows(p, q.drop_last());
    }
}

proof fn lemma_split_no_separator(q: Seq<u8>)
    requires
        forall|i: int| 0 <= i < q.len() ==> q[i] != SEPARATOR,
    ensures
        split_state(q).0.len() == 0,
        split_state(q).1 == q,
    decreases q.len(),
{
    if q.len() > 0 {
        lemma_split_no_separator(q.drop_last());
        assert(q.drop_last().push(q.last()) =~= q);
    }
}

/// A path made of the component `c` (with no separator in it) and a
/// separator, then anything, has at least one component.
pub proof fn lemma_leading_component(c: Seq<u8>, rest: Seq<u8>)
    requires
        is_component(c),
        forall|i: int| 0 <= i < c.len() ==> c[i] != SEPARATOR,
    ensures
        components(c.push(SEPARATOR) + rest).len() > 0,
{
    lemma_split_no_separator(c);
    assert(c.push(SEPARATOR).drop_last() =~= c);
    assert(split_state(c.push(SEPARATOR)).0.len() == 1);
    lemma_split_grows(c.push(SEPARATOR), rest);
}

/// Byte-wise equality of two byte strings.
pub fn same_bytes(a: &Vec<u8>, b: &Vec<u8>) -> (r: bool)
    ensures
        r == (a@ == b@),
{
    if a.len() != b.len() {
        return false;
    }
    let mut i: usize = 0;
    while i < a.len()
        invariant
            0 <= i <= a.len(),
            a.len() == b.len(),
            forall|j: int| 0 <= j < i ==> a@[j] == b@[j],
        decreases a.len() - i,
    {
        if a[i] != b[i] {
            return false;
        }
        i += 1;
    }
    assert(a@ =~= b@);
    true
}

} // verus!
