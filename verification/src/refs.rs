//! The wires that an expression reads.
use vstd::prelude::*;
use crate::ast::{Expr, MuxOption, Span, SpannedExpr};

verus! {

/// The wires read by an expression, with the source range of each read, from left to right.
pub open spec fn spec_refs(e: SpannedExpr) -> Seq<(Seq<char>, Span)>
    decreases e, 0int,
{
    match *e.expr {
        Expr::Constant(_) => Seq::empty(),
        Expr::BinOp(_, l, r) => spec_refs(l) + spec_refs(r),
        Expr::UnOp(_, inner) => spec_refs(inner),
        Expr::Mux(options) => spec_refs_options(options@, 0),
        Expr::NamedWire(name) => seq![(name@, e.span)],
        Expr::BitSelect { from, .. } => spec_refs(from),
        Expr::Concat(l, r) => spec_refs(l) + spec_refs(r),
        Expr::InSet(l, items) => spec_refs(l) + spec_refs_items(items@, 0),
        Expr::Error => Seq::empty(),
    }
}

pub open spec fn spec_refs_options(options: Seq<MuxOption>, i: int) -> Seq<(Seq<char>, Span)>
    decreases options, options.len() - i,
{
    if i < 0 || i >= options.len() {
        Seq::empty()
    } else {
        spec_refs(options[i].condition) + spec_refs(options[i].value) + spec_refs_options(options, i + 1)
    }
}

pub open spec fn spec_refs_items(items: Seq<SpannedExpr>, i: int) -> Seq<(Seq<char>, Span)>
    decreases items, items.len() - i,
{
    if i < 0 || i >= items.len() {
        Seq::empty()
    } else {
        spec_refs(items[i]) + spec_refs_items(items, i + 1)
    }
}

/// The names of the wires that an expression reads.
pub open spec fn spec_referenced(e: SpannedExpr) -> Set<Seq<char>> {
    spec_refs(e).map_values(|p: (Seq<char>, Span)| p.0).to_set()
}

pub open spec fn names_of(v: Seq<String>) -> Seq<Seq<char>> {
    v.map_values(|s: String| s@)
}

impl SpannedExpr {
    /// Appends the wires read by the expression, with their source ranges.
    pub fn collect_refs(&self, out: &mut Vec<(String, Span)>)
        ensures
            final(out)@.len() == old(out)@.len() + spec_refs(*self).len(),
            forall|i: int| #![trigger final(out)@[i]] 0 <= i < old(out)@.len() ==> final(out)@[i] == old(out)@[i],
            forall|i: int|
                #![trigger final(out)@[old(out)@.len() + i]]
                0 <= i < spec_refs(*self).len() ==> final(out)@[old(out)@.len() + i].0@ == spec_refs(*self)[i].0
                    && final(out)@[old(out)@.len() + i].1 == spec_refs(*self)[i].1,
        decreases self, 1int,
    {
        let ghost start = out@;
        match &*self.expr {
            Expr::Constant(_) => {},
            Expr::BinOp(_, l, r) => {
                l.collect_refs(out);
                r.collect_refs(out);
                proof {
                    lemma_concat_refs(start, spec_refs(*l), spec_refs(*r), out@);
                }
            },
            Expr::UnOp(_, inner) => {
                inner.collect_refs(out);
            },
            Expr::Mux(options) => {
                collect_refs_options(options, out);
            },
            Expr::NamedWire(name) => {
                out.push((name.clone(), self.span));
            },
            Expr::BitSelect { from, .. } => {
                from.collect_refs(out);
            },
            Expr::Concat(l, r) => {
                l.collect_refs(out);
                r.collect_refs(out);
                proof {
                    lemma_concat_refs(start, spec_refs(*l), spec_refs(*r), out@);
                }
            },
            Expr::InSet(l, items) => {
                l.collect_refs(out);
                collect_refs_items(items, out);
                proof {
                    lemma_concat_refs(start, spec_refs(*l), spec_refs_items(items@, 0), out@);
                }
            },
            Expr::Error => {},
        }
    }

    /// The names of the wires that the expression reads, each once, in the order of
    /// their first reading.
    pub fn referenced_wires(&self) -> (r: Vec<String>)
        ensures
            names_of(r@).no_duplicates(),
            names_of(r@).to_set() == spec_referenced(*self),
    {
        let mut refs: Vec<(String, Span)> = Vec::new();
        self.collect_refs(&mut refs);
        let ghost all = spec_refs(*self).map_values(|p: (Seq<char>, Span)| p.0);
        assert forall|j: int| #![trigger refs@[j]] 0 <= j < refs@.len() implies refs@[j].0@ == all[j] by {
            assert(refs@[0 + j] == refs@[j]);
        }
        let mut result: Vec<String> = Vec::new();
        assert(all.subrange(0, 0) =~= Seq::<Seq<char>>::empty());
        assert(names_of(result@).to_set() =~= all.subrange(0, 0).to_set());
        let mut i: usize = 0;
        while i < refs.len()
            invariant
                i <= refs@.len(),
                refs@.len() == all.len(),
                forall|j: int| #![trigger refs@[j]] 0 <= j < refs@.len() ==> refs@[j].0@ == all[j],
                names_of(result@).no_duplicates(),
                names_of(result@).to_set() == all.subrange(0, i as int).to_set(),
            decreases refs@.len() - i,
        {
            let ghost before = names_of(result@);
            let mut present = false;
            let mut j: usize = 0;
            while j < result.len()
                invariant
                    i < refs@.len(),
                    j <= result@.len(),
                    present == (exists|k: int| 0 <= k < j && result@[k]@ == refs@[i as int].0@),
                decreases result@.len() - j,
            {
                if crate::wires::str_eq(result[j].as_str(), refs[i].0.as_str()) {
                    present = true;
                }
                j = j + 1;
            }
            proof {
                assert(all.subrange(0, i + 1) == all.subrange(0, i as int).push(all[i as int]));
                assert(present == before.contains(all[i as int])) by {
                    if present {
                        let k = choose|k: int| 0 <= k < result@.len() && result@[k]@ == refs@[i as int].0@;
                        assert(before[k] == all[i as int]);
                    }
                    if before.contains(all[i as int]) {
                        let k = choose|k: int| 0 <= k < before.len() && before[k] == all[i as int];
                        assert(result@[k]@ == refs@[i as int].0@);
                    }
                }
            }
            proof {
                lemma_push_to_set(all.subrange(0, i as int), all[i as int]);
            }
            if !present {
                result.push(refs[i].0.clone());
                proof {
                    assert(names_of(result@) == before.push(all[i as int]));
                    lemma_push_to_set(before, all[i as int]);
                    assert(names_of(result@).no_duplicates()) by {
                        assert forall|a: int, b: int|
                            0 <= a < b < names_of(result@).len() implies names_of(result@)[a]
                            != names_of(result@)[b] by {
                            if b == before.len() {
                                assert(before.contains(before[a]));
                            }
                        }
                    }
                    assert(names_of(result@).to_set() =~= all.subrange(0, i + 1).to_set());
                }
            } else {
                proof {
                    assert(before.to_set().contains(all[i as int]));
                    assert(names_of(result@).to_set() =~= all.subrange(0, i + 1).to_set());
                }
            }
            i = i + 1;
        }
        assert(all.subrange(0, refs@.len() as int) == all);
        result
    }

    /// The readings of the wire with the given name, each as a wire expression in its source range.
    pub fn find_references(&self, find_name: &str) -> (r: Vec<SpannedExpr>)
        ensures
            r@.len() == spec_refs(*self).filter(|p: (Seq<char>, Span)| p.0 == find_name@).len(),
            forall|i: int|
                #![trigger r@[i]]
                0 <= i < r@.len() ==> r@[i].span == spec_refs(*self).filter(
                    |p: (Seq<char>, Span)| p.0 == find_name@,
                )[i].1 && (*r@[i].expr matches Expr::NamedWire(n) && n@ == find_name@),
            spec_refs(*self) == crate::traverse::wires_read(crate::traverse::preorder(*self)),
    {
        proof {
            crate::traverse::lemma_refs_in_preorder(*self);
        }
        let mut refs: Vec<(String, Span)> = Vec::new();
        self.collect_refs(&mut refs);
        let ghost all = spec_refs(*self);
        let ghost pred = |p: (Seq<char>, Span)| p.0 == find_name@;
        assert forall|j: int| #![trigger refs@[j]] 0 <= j < refs@.len() implies refs@[j].0@ == all[j].0 && refs@[j].1 == all[j].1 by {
            assert(refs@[0 + j] == refs@[j]);
        }
        let mut result: Vec<SpannedExpr> = Vec::new();
        assert(all.subrange(0, 0).filter(pred) =~= Seq::<(Seq<char>, Span)>::empty()) by {
            reveal(Seq::filter);
        }
        let mut i: usize = 0;
        while i < refs.len()
            invariant
                i <= refs@.len(),
                refs@.len() == all.len(),
                forall|j: int| #![trigger refs@[j]] 0 <= j < refs@.len() ==> refs@[j].0@ == all[j].0 && refs@[j].1 == all[j].1,
                pred == (|p: (Seq<char>, Span)| p.0 == find_name@),
                result@.len() == all.subrange(0, i as int).filter(pred).len(),
                forall|k: int|
                    #![trigger result@[k]]
                    0 <= k < result@.len() ==> result@[k].span == all.subrange(0, i as int).filter(pred)[k].1
                        && (*result@[k].expr matches Expr::NamedWire(n) && n@ == find_name@),
            decreases refs@.len() - i,
        {
            proof {
                assert(all.subrange(0, i + 1).drop_last() == all.subrange(0, i as int));
                assert(all.subrange(0, i + 1) == all.subrange(0, i as int).push(all[i as int]));
            }
            let ghost prev = all.subrange(0, i as int).filter(pred);
            let ghost next = all.subrange(0, i + 1).filter(pred);
            proof {
                let sub = all.subrange(0, i + 1);
                assert(sub.drop_last() =~= all.subrange(0, i as int));
                assert(sub.last() == all[i as int]);
                reveal(Seq::filter);
                assert(next == if pred(all[i as int]) { prev.push(all[i as int]) } else { prev });
            }
            if crate::wires::str_eq(refs[i].0.as_str(), find_name) {
                result.push(SpannedExpr::new(refs[i].1, Expr::NamedWire(refs[i].0.clone())));
            }
            i = i + 1;
        }
        assert(all.subrange(0, refs@.len() as int) == all);
        result
    }
}

proof fn lemma_push_to_set<A>(s: Seq<A>, a: A)
    ensures
        s.push(a).to_set() == s.to_set().insert(a),
{
    assert forall|x: A| s.push(a).to_set().contains(x) <==> s.to_set().insert(a).contains(x) by {
        if s.push(a).contains(x) {
            let k = choose|k: int| 0 <= k < s.push(a).len() && s.push(a)[k] == x;
            if k < s.len() {
                assert(s[k] == x);
            }
        }
        if s.contains(x) {
            let k = choose|k: int| 0 <= k < s.len() && s[k] == x;
            assert(s.push(a)[k] == x);
        }
        if x == a {
            assert(s.push(a)[s.len() as int] == x);
        }
    }
    assert(s.push(a).to_set() =~= s.to_set().insert(a));
}

proof fn lemma_concat_refs(
    start: Seq<(String, Span)>,
    a: Seq<(Seq<char>, Span)>,
    b: Seq<(Seq<char>, Span)>,
    out: Seq<(String, Span)>,
)
    requires
        out.len() == start.len() + a.len() + b.len(),
        forall|i: int| #![trigger out[i]] 0 <= i < start.len() ==> out[i] == start[i],
        forall|i: int|
            #![trigger out[start.len() + i]]
            0 <= i < a.len() ==> out[start.len() + i].0@ == a[i].0 && out[start.len() + i].1 == a[i].1,
        forall|i: int|
            #![trigger out[start.len() + a.len() + i]]
            0 <= i < b.len() ==> out[start.len() + a.len() + i].0@ == b[i].0 && out[start.len() + a.len()
                + i].1 == b[i].1,
    ensures
        forall|i: int|
            #![trigger out[start.len() + i]]
            0 <= i < (a + b).len() ==> out[start.len() + i].0@ == (a + b)[i].0 && out[start.len() + i].1 == (a
                + b)[i].1,
{
    assert forall|i: int| #![trigger out[start.len() + i]] 0 <= i < (a + b).len() implies out[start.len()
        + i].0@ == (a + b)[i].0 && out[start.len() + i].1 == (a + b)[i].1 by {
        if i >= a.len() {
            let k = i - a.len();
            assert(out[start.len() + a.len() + k] == out[start.len() + i]);
        }
    }
}

fn collect_refs_options(options: &Vec<MuxOption>, out: &mut Vec<(String, Span)>)
    ensures
        final(out)@.len() == old(out)@.len() + spec_refs_options(options@, 0).len(),
        forall|i: int| #![trigger final(out)@[i]] 0 <= i < old(out)@.len() ==> final(out)@[i] == old(out)@[i],
        forall|i: int|
            #![trigger final(out)@[old(out)@.len() + i]]
            0 <= i < spec_refs_options(options@, 0).len() ==> final(out)@[old(out)@.len() + i].0@
                == spec_refs_options(options@, 0)[i].0 && final(out)@[old(out)@.len() + i].1
                == spec_refs_options(options@, 0)[i].1,
    decreases options@, 2int,
{
    let ghost start = out@;
    let mut i: usize = 0;
    proof {
        lemma_refs_options_split(options@, 0);
    }
    while i < options.len()
        invariant
            i <= options@.len(),
            out@.len() >= start.len(),
            forall|k: int| #![trigger out@[k]] 0 <= k < start.len() ==> out@[k] == start[k],
            spec_refs_options(options@, 0) == prefix_refs_options(options@, i as int) + spec_refs_options(options@, i as int),
            out@.len() == start.len() + prefix_refs_options(options@, i as int).len(),
            forall|k: int|
                #![trigger out@[start.len() + k]]
                0 <= k < prefix_refs_options(options@, i as int).len() ==> out@[start.len() + k].0@
                    == prefix_refs_options(options@, i as int)[k].0 && out@[start.len() + k].1
                    == prefix_refs_options(options@, i as int)[k].1,
        decreases options@.len() - i,
    {
        let ghost mid = out@;
        let ghost p = prefix_refs_options(options@, i as int);
        options[i].condition.collect_refs(out);
        options[i].value.collect_refs(out);
        proof {
            lemma_concat_refs(mid, spec_refs(options@[i as int].condition), spec_refs(options@[i as int].value), out@);
            let c = spec_refs(options@[i as int].condition) + spec_refs(options@[i as int].value);
            assert(prefix_refs_options(options@, i + 1) == p + c);
            lemma_refs_options_split(options@, i as int);
            assert forall|k: int|
                #![trigger out@[start.len() + k]]
                0 <= k < (p + c).len() implies out@[start.len() + k].0@ == (p + c)[k].0 && out@[start.len()
                    + k].1 == (p + c)[k].1 by {
                if k < p.len() {
                    assert(out@[start.len() + k] == mid[start.len() + k]);
                } else {
                    let j = k - p.len();
                    assert(out@[mid.len() + j] == out@[start.len() + k]);
                }
            }
            assert(spec_refs_options(options@, 0) == (p + c) + spec_refs_options(options@, i + 1));
        }
        i = i + 1;
    }
    proof {
        assert(spec_refs_options(options@, options@.len() as int) == Seq::<(Seq<char>, Span)>::empty());
        assert(spec_refs_options(options@, 0) == prefix_refs_options(options@, i as int));
    }
}

/// The readings in the options before position `i`.
pub open spec fn prefix_refs_options(options: Seq<MuxOption>, i: int) -> Seq<(Seq<char>, Span)>
    decreases i,
{
    if i <= 0 || i > options.len() {
        Seq::empty()
    } else {
        prefix_refs_options(options, i - 1) + (spec_refs(options[i - 1].condition) + spec_refs(options[i - 1].value))
    }
}

proof fn lemma_refs_options_split(options: Seq<MuxOption>, i: int)
    requires
        0 <= i <= options.len(),
    ensures
        spec_refs_options(options, 0) == prefix_refs_options(options, i) + spec_refs_options(options, i),
    decreases i,
{
    if i > 0 {
        lemma_refs_options_split(options, i - 1);
        let c = spec_refs(options[i - 1].condition) + spec_refs(options[i - 1].value);
        assert(spec_refs_options(options, i - 1) == c + spec_refs_options(options, i));
        assert(prefix_refs_options(options, i) == prefix_refs_options(options, i - 1) + c);
        assert((prefix_refs_options(options, i - 1) + c) + spec_refs_options(options, i)
            == prefix_refs_options(options, i - 1) + (c + spec_refs_options(options, i)));
    } else {
        assert(prefix_refs_options(options, 0) == Seq::<(Seq<char>, Span)>::empty());
        assert(Seq::<(Seq<char>, Span)>::empty() + spec_refs_options(options, 0) == spec_refs_options(options, 0));
    }
}

/// The readings in the items before position `i`.
pub open spec fn prefix_refs_items(items: Seq<SpannedExpr>, i: int) -> Seq<(Seq<char>, Span)>
    decreases i,
{
    if i <= 0 || i > items.len() {
        Seq::empty()
    } else {
        prefix_refs_items(items, i - 1) + spec_refs(items[i - 1])
    }
}

proof fn lemma_refs_items_split(items: Seq<SpannedExpr>, i: int)
    requires
        0 <= i <= items.len(),
    ensures
        spec_refs_items(items, 0) == prefix_refs_items(items, i) + spec_refs_items(items, i),
    decreases i,
{
    if i > 0 {
        lemma_refs_items_split(items, i - 1);
        let c = spec_refs(items[i - 1]);
        assert(spec_refs_items(items, i - 1) == c + spec_refs_items(items, i));
        assert((prefix_refs_items(items, i - 1) + c) + spec_refs_items(items, i)
            == prefix_refs_items(items, i - 1) + (c + spec_refs_items(items, i)));
    } else {
        assert(Seq::<(Seq<char>, Span)>::empty() + spec_refs_items(items, 0) == spec_refs_items(items, 0));
    }
}

fn collect_refs_items(items: &Vec<SpannedExpr>, out: &mut Vec<(String, Span)>)
    ensures
        final(out)@.len() == old(out)@.len() + spec_refs_items(items@, 0).len(),
        forall|i: int| #![trigger final(out)@[i]] 0 <= i < old(out)@.len() ==> final(out)@[i] == old(out)@[i],
        forall|i: int|
            #![trigger final(out)@[old(out)@.len() + i]]
            0 <= i < spec_refs_items(items@, 0).len() ==> final(out)@[old(out)@.len() + i].0@
                == spec_refs_items(items@, 0)[i].0 && final(out)@[old(out)@.len() + i].1
                == spec_refs_items(items@, 0)[i].1,
    decreases items@, 2int,
{
    let ghost start = out@;
    let mut i: usize = 0;
    proof {
        lemma_refs_items_split(items@, 0);
    }
    while i < items.len()
        invariant
            i <= items@.len(),
            out@.len() >= start.len(),
            forall|k: int| #![trigger out@[k]] 0 <= k < start.len() ==> out@[k] == start[k],
            spec_refs_items(items@, 0) == prefix_refs_items(items@, i as int) + spec_refs_items(items@, i as int),
            out@.len() == start.len() + prefix_refs_items(items@, i as int).len(),
            forall|k: int|
                #![trigger out@[start.len() + k]]
                0 <= k < prefix_refs_items(items@, i as int).len() ==> out@[start.len() + k].0@
                    == prefix_refs_items(items@, i as int)[k].0 && out@[start.len() + k].1
                    == prefix_refs_items(items@, i as int)[k].1,
        decreases items@.len() - i,
    {
        let ghost mid = out@;
        let ghost p = prefix_refs_items(items@, i as int);
        items[i].collect_refs(out);
        proof {
            let c = spec_refs(items@[i as int]);
            assert(prefix_refs_items(items@, i + 1) == p + c);
            lemma_refs_items_split(items@, i as int);
            assert forall|k: int|
                #![trigger out@[start.len() + k]]
                0 <= k < (p + c).len() implies out@[start.len() + k].0@ == (p + c)[k].0 && out@[start.len()
                    + k].1 == (p + c)[k].1 by {
                if k < p.len() {
                    assert(out@[start.len() + k] == mid[start.len() + k]);
                } else {
                    let j = k - p.len();
                    assert(out@[mid.len() + j] == out@[start.len() + k]);
                }
            }
            assert(spec_refs_items(items@, 0) == (p + c) + spec_refs_items(items@, i + 1));
        }
        i = i + 1;
    }
    proof {
        assert(spec_refs_items(items@, items@.len() as int) == Seq::<(Seq<char>, Span)>::empty());
        assert(spec_refs_items(items@, 0) == prefix_refs_items(items@, i as int));
    }
}

} // verus!
