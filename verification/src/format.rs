//! The text of error messages, with the lines of source they point at.
use vstd::prelude::*;
use vstd::multiset::Multiset;
use crate::ast::{MuxOption, Span, WireWidth};
use crate::errors::{Error, opt_view};
use crate::io::{FileContents, spec_lines};
use crate::program::{contains_name, list_with_and_plain, plain_list};
use crate::text::{append_utf8, dec_digits, joined, push_chars, push_dec, push_str};
use crate::lexer::char_is_whitespace;
use crate::refs::names_of;

verus! {

/// Lines, each ending in a newline; the first after `first`, the others after seven
/// spaces.
pub open spec fn indented_lines(lines: Seq<Seq<char>>, first: Seq<char>) -> Seq<char>
    decreases lines.len(),
{
    if lines.len() == 0 {
        Seq::empty()
    } else {
        indented_lines(lines.drop_last(), first) + (if lines.len() == 1 {
            first
        } else {
            "       "@
        }) + lines.last() + "\n"@
    }
}

/// Appends the lines of a text, the first after `first`, the others after seven
/// spaces.
fn push_indented(out: &mut String, message: &str, first: &str)
    ensures
        final(out)@ == old(out)@ + indented_lines(spec_lines(message@), first@),
{
    let chars = crate::text::chars_of(message);
    let lines = crate::io::split_lines(&chars);
    let ghost all = lines@.map_values(|l: Vec<char>| l@);
    let ghost start = out@;
    let mut i: usize = 0;
    assert(all.take(0) =~= Seq::<Seq<char>>::empty());
    while i < lines.len()
        invariant
            i <= lines@.len(),
            all == lines@.map_values(|l: Vec<char>| l@),
            out@ == start + indented_lines(all.take(i as int), first@),
        decreases lines@.len() - i,
    {
        assert(all.take(i + 1).drop_last() =~= all.take(i as int));
        assert(all.take(i + 1).last() == lines@[i as int]@);
        if i == 0 {
            push_str(out, first);
        } else {
            push_str(out, "       ");
        }
        push_chars(out, lines[i].as_slice());
        push_str(out, "\n");
        i = i + 1;
    }
    assert(all.take(lines@.len() as int) =~= all);
}

/// Appends a message: its first line after `error: `, the others indented to match.
pub fn error(out: &mut String, message: &str)
    ensures
        final(out)@ == old(out)@ + indented_lines(spec_lines(message@), "error: "@),
{
    push_indented(out, message, "error: ");
}

/// Appends more lines of a message, indented under its first line.
pub fn error_continue(out: &mut String, message: &str)
    ensures
        final(out)@ == old(out)@ + indented_lines(spec_lines(message@), "       "@),
{
    push_indented(out, message, "       ");
}

/// `s are` for a count other than one, ` is` for one.
pub fn s_are(i: usize) -> (r: &'static str)
    ensures
        r@ == if i != 1 {
            "s are"@
        } else {
            " is"@
        },
{
    if i != 1 {
        "s are"
    } else {
        " is"
    }
}

/// The text of `list_with_and`: one item in quotes, two in quotes joined with
/// `and`; for more, all but the last joined with `', '`, then `, and ` and the last
/// (the quotes around the ends are left out).
pub open spec fn quoted_list(items: Seq<Seq<char>>) -> Seq<char> {
    let n = items.len();
    if n > 2 {
        joined(items.take(n - 1), "', '"@) + ", and "@ + items[n - 1]
    } else if n == 2 {
        "'"@ + items[0] + "' and '"@ + items[1] + "'"@
    } else if n == 1 {
        "'"@ + items[0] + "'"@
    } else {
        Seq::empty()
    }
}

/// Items in quotes, joined with commas and a final `and`.
pub fn list_with_and(items: &Vec<String>) -> (r: String)
    ensures
        r@ == quoted_list(names_of(items@)),
{
    let ghost names = names_of(items@);
    let mut lst = String::new();
    let n = items.len();
    if n > 2 {
        let mut i: usize = 0;
        while i < n - 1
            invariant
                n == items@.len(),
                names == names_of(items@),
                n > 2,
                i <= n - 1,
                lst@ == joined(names.take(i as int), "', '"@),
            decreases n - 1 - i,
        {
            assert(names.take(i + 1).drop_last() =~= names.take(i as int));
            if i > 0 {
                push_str(&mut lst, "', '");
            }
            push_str(&mut lst, items[i].as_str());
            proof {
                if i == 0 {
                    assert(lst@ =~= joined(names.take(1), "', '"@));
                }
            }
            i = i + 1;
        }
        push_str(&mut lst, ", and ");
        push_str(&mut lst, items[n - 1].as_str());
    } else if n == 2 {
        push_str(&mut lst, "'");
        push_str(&mut lst, items[0].as_str());
        push_str(&mut lst, "' and '");
        push_str(&mut lst, items[1].as_str());
        push_str(&mut lst, "'");
    } else if n == 1 {
        push_str(&mut lst, "'");
        push_str(&mut lst, items[0].as_str());
        push_str(&mut lst, "'");
    }
    proof {
        if n == 0 {
            assert(lst@ =~= Seq::<char>::empty());
        }
    }
    lst
}

/// The first text comes before the second in the order of characters: at the first
/// place where they differ, its character is smaller, or it is a proper prefix.
pub open spec fn text_before(a: Seq<char>, b: Seq<char>) -> bool
    decreases a.len(),
{
    if a.len() == 0 {
        b.len() > 0
    } else if b.len() == 0 {
        false
    } else if a[0] != b[0] {
        (a[0] as u32) < (b[0] as u32)
    } else {
        text_before(a.drop_first(), b.drop_first())
    }
}

/// Whether the first text comes before the second in the order of characters.
pub fn text_less(a: &str, b: &str) -> (r: bool)
    ensures
        r == text_before(a@, b@),
{
    let x = crate::text::chars_of(a);
    let y = crate::text::chars_of(b);
    let mut i: usize = 0;
    assert(x@.skip(0) =~= x@);
    assert(y@.skip(0) =~= y@);
    while i < x.len() && i < y.len()
        invariant
            x@ == a@,
            y@ == b@,
            i <= x@.len(),
            i <= y@.len(),
            text_before(x@, y@) == text_before(x@.skip(i as int), y@.skip(i as int)),
        decreases x@.len() - i,
    {
        assert(x@.skip(i as int)[0] == x@[i as int]);
        assert(y@.skip(i as int)[0] == y@[i as int]);
        if x[i] != y[i] {
            return (x[i] as u32) < (y[i] as u32);
        }
        assert(x@.skip(i as int).drop_first() =~= x@.skip(i + 1));
        assert(y@.skip(i as int).drop_first() =~= y@.skip(i + 1));
        i = i + 1;
    }
    x.len() < y.len()
}

/// Texts in the order of `text_before`, equal ones next to each other.
pub open spec fn texts_sorted(v: Seq<Seq<char>>) -> bool {
    forall|i: int, j: int| 0 <= i < j < v.len() ==> !text_before(#[trigger] v[j], #[trigger] v[i])
}

proof fn lemma_text_before_asymmetric(a: Seq<char>, b: Seq<char>)
    requires
        text_before(a, b),
    ensures
        !text_before(b, a),
    decreases a.len(),
{
    if a.len() > 0 && b.len() > 0 && a[0] == b[0] {
        lemma_text_before_asymmetric(a.drop_first(), b.drop_first());
    }
}

proof fn lemma_text_before_split(a: Seq<char>, b: Seq<char>, c: Seq<char>)
    requires
        text_before(a, c),
    ensures
        text_before(a, b) || text_before(b, c),
    decreases a.len(),
{
    if a.len() > 0 && b.len() > 0 && c.len() > 0 {
        vstd::utf8::char_u32_cast(a[0], a[0] as u32);
        vstd::utf8::char_u32_cast(b[0], b[0] as u32);
        vstd::utf8::char_u32_cast(c[0], c[0] as u32);
        if a[0] == b[0] && b[0] == c[0] {
            lemma_text_before_split(a.drop_first(), b.drop_first(), c.drop_first());
        }
    }
}

proof fn lemma_text_before_total(a: Seq<char>, b: Seq<char>)
    requires
        !text_before(a, b),
        !text_before(b, a),
    ensures
        a == b,
    decreases a.len(),
{
    if a.len() > 0 && b.len() > 0 {
        vstd::utf8::char_u32_cast(a[0], a[0] as u32);
        vstd::utf8::char_u32_cast(b[0], b[0] as u32);
        if a[0] == b[0] {
            lemma_text_before_total(a.drop_first(), b.drop_first());
            assert(a =~= seq![a[0]] + a.drop_first());
            assert(b =~= seq![b[0]] + b.drop_first());
        }
    } else {
        assert(a =~= b);
    }
}

/// Two sorted lists of the same texts are the same list.
proof fn lemma_sorted_unique(x: Seq<Seq<char>>, y: Seq<Seq<char>>)
    requires
        texts_sorted(x),
        texts_sorted(y),
        x.to_multiset() == y.to_multiset(),
    ensures
        x == y,
    decreases x.len(),
{
    broadcast use vstd::seq_lib::group_to_multiset_ensures;
    broadcast use vstd::multiset::group_multiset_axioms;
    if x.len() == 0 {
        if y.len() > 0 {
            assert(y.to_multiset().count(y[0]) > 0);
        }
        assert(x =~= y);
    } else {
        assert(x.to_multiset().count(x[0]) > 0);
        assert(y.contains(x[0]));
        assert(y.len() > 0);
        assert(y.to_multiset().count(y[0]) > 0);
        assert(x.contains(y[0]));
        let i = x.index_of(y[0]);
        let j = y.index_of(x[0]);
        if i > 0 {
            assert(!text_before(x[i], x[0]));
        } else if text_before(y[0], x[0]) {
            lemma_text_before_asymmetric(y[0], x[0]);
        }
        if j > 0 {
            assert(!text_before(y[j], y[0]));
        } else if text_before(x[0], y[0]) {
            lemma_text_before_asymmetric(x[0], y[0]);
        }
        assert(!text_before(y[0], x[0]));
        assert(!text_before(x[0], y[0]));
        lemma_text_before_total(x[0], y[0]);
        assert(x.remove(0).to_multiset() == y.remove(0).to_multiset());
        assert forall|a: int, b: int| 0 <= a < b < x.remove(0).len() implies !text_before(
            #[trigger] x.remove(0)[b],
            #[trigger] x.remove(0)[a],
        ) by {
            assert(x.remove(0)[a] == x[a + 1]);
            assert(x.remove(0)[b] == x[b + 1]);
        }
        assert forall|a: int, b: int| 0 <= a < b < y.remove(0).len() implies !text_before(
            #[trigger] y.remove(0)[b],
            #[trigger] y.remove(0)[a],
        ) by {
            assert(y.remove(0)[a] == y[a + 1]);
            assert(y.remove(0)[b] == y[b + 1]);
        }
        lemma_sorted_unique(x.remove(0), y.remove(0));
        assert(x =~= seq![x[0]] + x.remove(0));
        assert(y =~= seq![y[0]] + y.remove(0));
    }
}

/// Inserts a text in a list kept in the order of `text_less`, after the texts that
/// come before it.
fn insert_sorted(v: &mut Vec<String>, s: String)
    requires
        texts_sorted(names_of(old(v)@)),
    ensures
        texts_sorted(names_of(final(v)@)),
        names_of(final(v)@).to_multiset() == names_of(old(v)@).to_multiset().insert(s@),
{
    let ghost old_names = names_of(v@);
    let mut pos: usize = 0;
    while pos < v.len() && text_less(v[pos].as_str(), s.as_str())
        invariant
            pos <= v@.len(),
            old_names == names_of(v@),
            forall|k: int| 0 <= k < pos ==> text_before(#[trigger] old_names[k], s@),
        decreases v@.len() - pos,
    {
        pos = pos + 1;
    }
    v.insert(pos, s);
    proof {
        let w = names_of(v@);
        assert(w =~= old_names.insert(pos as int, s@));
        broadcast use vstd::seq_lib::to_multiset_insert;
        assert forall|i: int, j: int| 0 <= i < j < w.len() implies !text_before(#[trigger] w[j], #[trigger] w[i]) by {
            if j < pos {
            } else if j == pos {
                lemma_text_before_asymmetric(w[i], s@);
            } else if i == pos {
                if text_before(w[j], s@) {
                    lemma_text_before_split(w[j], old_names[pos as int], s@);
                }
            } else if i < pos {
                if text_before(w[j], w[i]) {
                    lemma_text_before_split(w[j], s@, w[i]);
                    lemma_text_before_asymmetric(w[i], s@);
                    if text_before(w[j], s@) {
                        lemma_text_before_split(w[j], old_names[pos as int], s@);
                    }
                }
            }
        }
    }
}

/// A text in double quotes.
pub open spec fn double_quoted(t: Seq<char>) -> Seq<char> {
    seq!['"'] + t + seq!['"']
}

pub open spec fn comparison_operators() -> Seq<Seq<char>> {
    seq!["!="@, "<"@, "<="@, "=="@, ">"@, ">="@, ">>"@]
}

pub open spec fn binary_operators() -> Seq<Seq<char>> {
    seq!["&"@, "&&"@, "*"@, "+"@, "-"@, "/"@, "<<"@, "^"@, "|"@, "||"@, "in"@]
}

pub open spec fn unary_operators() -> Seq<Seq<char>> {
    seq!["!"@, "-"@, "~"@]
}

/// Every operator of a kind stands, quoted, among the tokens.
pub open spec fn has_all_ops(tokens: Seq<Seq<char>>, ops: Seq<Seq<char>>) -> bool {
    forall|i: int| 0 <= i < ops.len() ==> tokens.contains(double_quoted(#[trigger] ops[i]))
}

/// One of the operators of a kind, quoted, is `t`.
pub open spec fn is_quoted_op(ops: Seq<Seq<char>>, t: Seq<char>) -> bool {
    exists|i: int| 0 <= i < ops.len() && t == double_quoted(#[trigger] ops[i])
}

/// The token is summed up with its kind of operators: every operator of the kind
/// is expected.
pub open spec fn summed_up(tokens: Seq<Seq<char>>, t: Seq<char>) -> bool {
    ||| has_all_ops(tokens, comparison_operators()) && is_quoted_op(comparison_operators(), t)
    ||| has_all_ops(tokens, binary_operators()) && is_quoted_op(binary_operators(), t)
    ||| has_all_ops(tokens, unary_operators()) && is_quoted_op(unary_operators(), t)
}

/// The words for the kinds of operators that are summed up.
pub open spec fn kinds_found(tokens: Seq<Seq<char>>) -> Seq<Seq<char>> {
    (if has_all_ops(tokens, comparison_operators()) {
        seq!["a comparison operator"@]
    } else {
        Seq::empty()
    }) + (if has_all_ops(tokens, binary_operators()) {
        seq!["a binary operator"@]
    } else {
        Seq::empty()
    }) + (if has_all_ops(tokens, unary_operators()) {
        seq!["a unary operator"@]
    } else {
        Seq::empty()
    })
}

/// The words for one token: identifiers and constants are named; a token in double
/// quotes is put in single quotes.
pub open spec fn describe_token(t: Seq<char>) -> Seq<char> {
    if t == "ID"@ {
        "an identifier (wire name)"@
    } else if t == "CONSTANT"@ {
        "an integer constant"@
    } else if t.len() >= 2 && t[0] == '"' {
        seq!['\''] + t.subrange(1, t.len() - 1) + seq!['\'']
    } else {
        t
    }
}

/// The tokens, each once, in the order in which they first occur.
pub open spec fn distinct_tokens(tokens: Seq<Seq<char>>) -> Seq<Seq<char>>
    decreases tokens.len(),
{
    if tokens.len() == 0 {
        Seq::empty()
    } else {
        let d = distinct_tokens(tokens.drop_last());
        if d.contains(tokens.last()) {
            d
        } else {
            d.push(tokens.last())
        }
    }
}

/// The words for those of `ts` that are not summed up.
pub open spec fn listed_descriptions(tokens: Seq<Seq<char>>, ts: Seq<Seq<char>>) -> Seq<Seq<char>>
    decreases ts.len(),
{
    if ts.len() == 0 {
        Seq::empty()
    } else {
        let d = listed_descriptions(tokens, ts.drop_last());
        if summed_up(tokens, ts.last()) {
            d
        } else {
            d.push(describe_token(ts.last()))
        }
    }
}

/// All the words of a list of expected tokens, in no order.
pub open spec fn token_descriptions(tokens: Seq<Seq<char>>) -> Multiset<Seq<char>> {
    (kinds_found(tokens) + listed_descriptions(tokens, distinct_tokens(tokens))).to_multiset()
}

/// The words of a list of expected tokens, sorted.
pub open spec fn sorted_descriptions(tokens: Seq<Seq<char>>) -> Seq<Seq<char>> {
    choose|found: Seq<Seq<char>>| texts_sorted(found) && found.to_multiset() == token_descriptions(tokens)
}

/// The text of `format_token_list`: the sorted words joined with `or`.
pub open spec fn token_list_text(tokens: Seq<Seq<char>>) -> Seq<char> {
    or_list(sorted_descriptions(tokens))
}

/// Texts joined with `or`: `a`, `a or b`, or `a, b, or c`.
pub open spec fn or_list(items: Seq<Seq<char>>) -> Seq<char> {
    let n = items.len();
    if n == 1 {
        items[0]
    } else if n == 2 {
        items[0] + " or "@ + items[1]
    } else if n > 2 {
        joined(items.take(n - 1), ", "@) + ", "@ + "or "@ + items[n - 1]
    } else {
        Seq::empty()
    }
}

/// Whether all the quoted operators are among the tokens.
fn has_all(tokens: &Vec<String>, operators: &[&str]) -> (r: bool)
    ensures
        r == has_all_ops(names_of(tokens@), operators@.map_values(|o: &str| o@)),
{
    let ghost ops = operators@.map_values(|o: &str| o@);
    let mut i: usize = 0;
    while i < operators.len()
        invariant
            i <= operators@.len(),
            ops == operators@.map_values(|o: &str| o@),
            forall|k: int| 0 <= k < i ==> names_of(tokens@).contains(double_quoted(#[trigger] ops[k])),
        decreases operators@.len() - i,
    {
        let mut q = String::from_str("\"");
        push_str(&mut q, operators[i]);
        push_str(&mut q, "\"");
        proof {
            reveal_strlit("\"");
            assert(q@ =~= double_quoted(ops[i as int]));
        }
        if !contains_name(tokens, q.as_str()) {
            return false;
        }
        i = i + 1;
    }
    true
}

/// Whether a token is one of the operators, quoted.
fn is_quoted_in(t: &str, operators: &[&str]) -> (r: bool)
    ensures
        r == is_quoted_op(operators@.map_values(|o: &str| o@), t@),
{
    let ghost ops = operators@.map_values(|o: &str| o@);
    let mut i: usize = 0;
    while i < operators.len()
        invariant
            i <= operators@.len(),
            ops == operators@.map_values(|o: &str| o@),
            forall|k: int| 0 <= k < i ==> t@ != double_quoted(#[trigger] ops[k]),
        decreases operators@.len() - i,
    {
        let mut q = String::from_str("\"");
        push_str(&mut q, operators[i]);
        push_str(&mut q, "\"");
        proof {
            reveal_strlit("\"");
            assert(q@ =~= double_quoted(ops[i as int]));
        }
        if crate::wires::str_eq(q.as_str(), t) {
            return true;
        }
        i = i + 1;
    }
    false
}

/// The words for one token: see `describe_token`.
fn token_words(t: &str) -> (r: String)
    ensures
        r@ == describe_token(t@),
{
    if crate::wires::str_eq(t, "ID") {
        String::from_str("an identifier (wire name)")
    } else if crate::wires::str_eq(t, "CONSTANT") {
        String::from_str("an integer constant")
    } else {
        let chars = crate::text::chars_of(t);
        if chars.len() >= 2 && chars[0] == '"' {
            let mut q = String::from_str("'");
            let inner = crate::lexer::slice_of(&chars, 1, chars.len() - 1);
            push_chars(&mut q, inner.as_slice());
            push_str(&mut q, "'");
            proof {
                reveal_strlit("'");
            }
            q
        } else {
            String::from_str(t)
        }
    }
}

/// The expected tokens of a syntax error in words: when every comparison, binary or
/// unary operator is expected, they are summed up as such; identifiers and constants
/// are named; other tokens stand in single quotes; sorted, and joined with commas and
/// `or`.
pub fn format_token_list(tokens: &Vec<String>) -> (r: String)
    ensures
        r@ == token_list_text(names_of(tokens@)),
        texts_sorted(sorted_descriptions(names_of(tokens@))),
        sorted_descriptions(names_of(tokens@)).to_multiset() == token_descriptions(names_of(tokens@)),
{
    let compare = ["!=", "<", "<=", "==", ">", ">=", ">>"];
    let binary = ["&", "&&", "*", "+", "-", "/", "<<", "^", "|", "||", "in"];
    let unary = ["!", "-", "~"];
    let ghost toks = names_of(tokens@);
    proof {
        assert(compare@.map_values(|o: &str| o@) =~= comparison_operators());
        assert(binary@.map_values(|o: &str| o@) =~= binary_operators());
        assert(unary@.map_values(|o: &str| o@) =~= unary_operators());
    }
    let mut set: Vec<String> = Vec::new();
    let mut i: usize = 0;
    assert(toks.take(0) =~= Seq::<Seq<char>>::empty());
    while i < tokens.len()
        invariant
            i <= tokens@.len(),
            toks == names_of(tokens@),
            names_of(set@) == distinct_tokens(toks.take(i as int)),
            forall|t: Seq<char>| names_of(set@).contains(t) <==> toks.take(i as int).contains(t),
        decreases tokens@.len() - i,
    {
        assert(toks.take(i + 1).drop_last() =~= toks.take(i as int));
        assert(toks.take(i + 1).last() == tokens@[i as int]@);
        let ghost before = names_of(set@);
        if !contains_name(&set, tokens[i].as_str()) {
            set.push(tokens[i].clone());
            assert(names_of(set@) =~= before.push(tokens@[i as int]@));
            assert(names_of(set@)[before.len() as int] == tokens@[i as int]@);
        }
        assert(names_of(set@).contains(tokens@[i as int]@));
        proof {
            assert forall|t: Seq<char>| names_of(set@).contains(t) <==> toks.take(i + 1).contains(t) by {
                if toks.take(i + 1).contains(t) {
                    let k = toks.take(i + 1).index_of(t);
                    if k < i {
                        assert(toks.take(i as int)[k] == t);
                    }
                }
                if names_of(set@).contains(t) && t != tokens@[i as int]@ {
                    let k = names_of(set@).index_of(t);
                    assert(before[k] == t);
                    assert(before.contains(t));
                    let k2 = toks.take(i as int).index_of(t);
                    assert(toks.take(i + 1)[k2] == t);
                }
                if names_of(set@).contains(t) && t == tokens@[i as int]@ {
                    assert(toks.take(i + 1)[i as int] == t);
                }
                if toks.take(i + 1).contains(t) && t != tokens@[i as int]@ {
                    let k = toks.take(i + 1).index_of(t);
                    assert(toks.take(i as int)[k] == t);
                    assert(before.contains(t));
                    let k2 = before.index_of(t);
                    assert(names_of(set@)[k2] == t);
                }
            }
        }
        i = i + 1;
    }
    assert(toks.take(tokens@.len() as int) =~= toks);
    let ghost dset = names_of(set@);
    proof {
        assert forall|ops: Seq<Seq<char>>| has_all_ops(dset, ops) == has_all_ops(toks, ops) by {
            assert forall|k: int| 0 <= k < ops.len() implies (dset.contains(double_quoted(#[trigger] ops[k]))
                <==> toks.contains(double_quoted(ops[k]))) by {}
        }
    }
    let all_compare = has_all(&set, &compare);
    let all_binary = has_all(&set, &binary);
    let all_unary = has_all(&set, &unary);
    let mut found: Vec<String> = Vec::new();
    if all_compare {
        insert_sorted(&mut found, String::from_str("a comparison operator"));
    }
    if all_binary {
        insert_sorted(&mut found, String::from_str("a binary operator"));
    }
    if all_unary {
        insert_sorted(&mut found, String::from_str("a unary operator"));
    }
    proof {
        broadcast use vstd::seq_lib::to_multiset_build;
        assert(names_of(found@).to_multiset() =~= kinds_found(toks).to_multiset()) by {
            broadcast use vstd::seq_lib::group_to_multiset_ensures;
            broadcast use vstd::multiset::group_multiset_axioms;
            broadcast use vstd::seq_lib::lemma_multiset_commutative;
            let e = Seq::<Seq<char>>::empty();
            let c: Seq<Seq<char>> = if all_compare { seq!["a comparison operator"@] } else { e };
            let b: Seq<Seq<char>> = if all_binary { seq!["a binary operator"@] } else { e };
            let u: Seq<Seq<char>> = if all_unary { seq!["a unary operator"@] } else { e };
            assert(kinds_found(toks) == c + b + u);
            assert(e.to_multiset() =~= Multiset::empty());
        }
    }
    let mut i: usize = 0;
    assert(dset.take(0) =~= Seq::<Seq<char>>::empty());
    while i < set.len()
        invariant
            i <= set@.len(),
            dset == names_of(set@),
            dset == distinct_tokens(toks),
            all_compare == has_all_ops(toks, comparison_operators()),
            all_binary == has_all_ops(toks, binary_operators()),
            all_unary == has_all_ops(toks, unary_operators()),
            compare@.map_values(|o: &str| o@) == comparison_operators(),
            binary@.map_values(|o: &str| o@) == binary_operators(),
            unary@.map_values(|o: &str| o@) == unary_operators(),
            texts_sorted(names_of(found@)),
            names_of(found@).to_multiset() == (kinds_found(toks) + listed_descriptions(
                toks,
                dset.take(i as int),
            )).to_multiset(),
        decreases set@.len() - i,
    {
        let t = set[i].as_str();
        assert(dset.take(i + 1).drop_last() =~= dset.take(i as int));
        assert(dset.take(i + 1).last() == t@);
        let summed = (all_compare && is_quoted_in(t, &compare)) || (all_binary && is_quoted_in(t, &binary)) || (
        all_unary && is_quoted_in(t, &unary));
        if !summed {
            let words = token_words(t);
            let ghost w = words@;
            insert_sorted(&mut found, words);
            proof {
                broadcast use vstd::seq_lib::to_multiset_build;
                let prev = kinds_found(toks) + listed_descriptions(toks, dset.take(i as int));
                assert(kinds_found(toks) + listed_descriptions(toks, dset.take(i + 1)) =~= prev.push(w));
            }
        }
        i = i + 1;
    }
    assert(dset.take(set@.len() as int) =~= dset);
    let ghost fnames = names_of(found@);
    let mut formatted = String::new();
    let n = found.len();
    if n == 1 {
        push_str(&mut formatted, found[0].as_str());
    } else if n == 2 {
        push_str(&mut formatted, found[0].as_str());
        push_str(&mut formatted, " or ");
        push_str(&mut formatted, found[1].as_str());
    } else if n > 2 {
        let mut i: usize = 0;
        assert(fnames.take(0) =~= Seq::<Seq<char>>::empty());
        while i < n - 1
            invariant
                n == found@.len(),
                fnames == names_of(found@),
                n > 2,
                i <= n - 1,
                i == 0 ==> formatted@ == Seq::<char>::empty(),
                i > 0 ==> formatted@ == joined(fnames.take(i as int), ", "@) + ", "@,
            decreases n - 1 - i,
        {
            let ghost before = formatted@;
            assert(fnames.take(i + 1).drop_last() =~= fnames.take(i as int));
            push_str(&mut formatted, found[i].as_str());
            push_str(&mut formatted, ", ");
            proof {
                if i == 0 {
                    assert(formatted@ =~= joined(fnames.take(1), ", "@) + ", "@);
                }
            }
            i = i + 1;
        }
        push_str(&mut formatted, "or ");
        push_str(&mut formatted, found[n - 1].as_str());
    }
    proof {
        if n == 0 {
            assert(formatted@ =~= or_list(fnames));
        }
        let c = sorted_descriptions(toks);
        assert(texts_sorted(fnames) && fnames.to_multiset() == token_descriptions(toks));
        lemma_sorted_unique(fnames, c);
    }
    formatted
}

/// A message: its first line after `error: `, its other lines indented to match.
pub open spec fn err_text(m: Seq<char>) -> Seq<char> {
    indented_lines(spec_lines(m), "error: "@)
}

/// More lines of a message, indented under its first line.
pub open spec fn more_text(m: Seq<char>) -> Seq<char> {
    indented_lines(spec_lines(m), "       "@)
}

/// A name in single quotes between two texts.
pub open spec fn quoted_name(before: Seq<char>, name: Seq<char>, after: Seq<char>) -> Seq<char> {
    before + "'"@ + name + "'"@ + after
}

/// The lines of the contents that hold a source range.
pub open spec fn region(c: FileContents, span: Span) -> Seq<char> {
    c.region_text(span.0 as nat, span.1 as nat)
}

/// The number of bits of a width, with 128 for no width.
pub open spec fn bits_text(w: WireWidth) -> Seq<char> {
    dec_digits(w.spec_bits_or_128() as nat)
}

/// The text between two positions, or nothing if they are not in order within it.
pub open spec fn text_in(t: Seq<char>, start: nat, end: nat) -> Seq<char> {
    if start <= end <= t.len() {
        t.subrange(start as int, end as int)
    } else {
        Seq::empty()
    }
}

/// The hint after an undeclared name: a close name, a missing register bank for a
/// name like `x_foo`, or a declaration.
pub open spec fn undeclared_hint_text(name: Seq<char>, close_name: Option<Seq<char>>) -> Seq<char> {
    match close_name {
        Some(other) => more_text("(Did you mean '"@ + other + "'?)"@),
        None => if name.len() > 2 && name[1] == '_' {
            more_text("(Missing register declaration?)"@)
        } else {
            more_text("(Did you mean to declare it with 'wire "@ + name + "' or 'const "@ + name + "'?)"@)
        },
    }
}

/// The position of the first element of `s` from `j` on that is greater than `b`,
/// or the length.
pub open spec fn first_above(s: Seq<u8>, b: u8, j: nat) -> nat
    decreases s.len() - j,
{
    if j >= s.len() || s[j as int] > b {
        j
    } else {
        first_above(s, b, j + 1)
    }
}

/// Bit counts in order, with `b` put before the first greater one unless it is
/// among the ones before.
pub open spec fn insert_size(s: Seq<u8>, b: u8) -> Seq<u8> {
    let p = first_above(s, b, 0);
    if s.take(p as int).contains(b) {
        s
    } else {
        s.insert(p as int, b)
    }
}

/// The bit counts of the first `n` widths, smallest first, each once.
pub open spec fn width_sizes(widths: Seq<WireWidth>, n: nat) -> Seq<u8>
    decreases n,
{
    if n == 0 {
        Seq::empty()
    } else {
        let s = width_sizes(widths, (n - 1) as nat);
        match widths[n - 1] {
            WireWidth::Bits(b) => insert_size(s, b),
            WireWidth::Unlimited => s,
        }
    }
}

/// How many of the first `n` widths have `b` bits.
pub open spec fn width_count(widths: Seq<WireWidth>, b: u8, n: nat) -> nat
    decreases n,
{
    if n == 0 {
        0
    } else {
        width_count(widths, b, (n - 1) as nat) + if widths[n - 1] == WireWidth::Bits(b) {
            1nat
        } else {
            0nat
        }
    }
}

/// The regions of those of the first `n` options whose values have `b` bits.
pub open spec fn mux_regions(c: FileContents, options: Seq<MuxOption>, widths: Seq<WireWidth>, b: u8, n: nat) -> Seq<char>
    decreases n,
{
    if n == 0 {
        Seq::empty()
    } else {
        mux_regions(c, options, widths, b, (n - 1) as nat) + if widths[n - 1] == WireWidth::Bits(b) {
            region(c, options[n - 1].value.span)
        } else {
            Seq::empty()
        }
    }
}

/// `s are` for a count other than one, ` is` for one.
pub open spec fn s_are_text(i: nat) -> Seq<char> {
    if i != 1 {
        "s are"@
    } else {
        " is"@
    }
}

/// For the first `k` bit counts: how many options have it, and where they are.
pub open spec fn mux_sizes_text(
    c: FileContents,
    options: Seq<MuxOption>,
    widths: Seq<WireWidth>,
    sizes: Seq<u8>,
    k: nat,
) -> Seq<char>
    decreases k,
{
    if k == 0 {
        Seq::empty()
    } else {
        let b = sizes[k - 1];
        let m: nat = if widths.len() <= options.len() {
            widths.len()
        } else {
            options.len()
        };
        let count = width_count(widths, b, m);
        mux_sizes_text(c, options, widths, sizes, (k - 1) as nat) + more_text(
            dec_digits(count) + " option"@ + s_are_text(count) + " "@ + dec_digits(b as nat) + " bits wide:\n"@,
        ) + mux_regions(c, options, widths, b, m)
    }
}

/// The text of mismatched widths among the options of a mux.
pub open spec fn mux_widths_text(c: FileContents, options: Seq<MuxOption>, widths: Seq<WireWidth>) -> Seq<char> {
    let sizes = width_sizes(widths, widths.len());
    err_text("Mismatched wire widths for mux options."@) + mux_sizes_text(c, options, widths, sizes, sizes.len())
}

/// The first `i` lines of a circle of wires that read each other.
pub open spec fn loop_lines(names: Seq<Seq<char>>, i: nat) -> Seq<char>
    decreases i,
{
    if i == 0 {
        Seq::empty()
    } else {
        let k = i - 1;
        let next = if k + 1 < names.len() {
            k + 1
        } else {
            0
        };
        loop_lines(names, (i - 1) as nat) + more_text(
            quoted_name("  "@, names[next], " depends on "@) + quoted_name(""@, names[k], ""@) + if k + 1
                < names.len() {
                " and"@
            } else {
                Seq::empty()
            },
        )
    }
}

/// Every character is white space.
pub open spec fn all_blank(t: Seq<char>) -> bool {
    forall|i: int| 0 <= i < t.len() ==> char_is_whitespace(#[trigger] t[i])
}

/// The text of an unexpected token, with the expected ones and, before a semicolon
/// that may be missing, a hint.
pub open spec fn unrecognized_text(c: FileContents, location: Span, expected: Seq<Seq<char>>) -> Seq<char> {
    let t = c.text();
    let token = if location.1 >= t.len() {
        "<end of file>"@
    } else {
        text_in(t, location.0 as nat, location.1 as nat)
    };
    err_text(quoted_name("Unexpected token "@, token, ", expected "@) + token_list_text(expected) + ":"@) + (if expected.contains(
        "\";\""@,
    ) && all_blank(text_in(t, c.line_info(location.0 as nat).1, location.0 as nat)) {
        more_text("(Missing semicolon before this?)"@)
    } else {
        Seq::empty()
    }) + region(c, location)
}

/// The text of an error, with the lines of the contents it points at.
pub open spec fn error_text(e: Error, c: FileContents) -> Seq<char>
    decreases e, 0int,
{
    match e {
        Error::MultipleErrors(errors) => errors_text(errors@, c),
        Error::MismatchedMuxWidths(options, widths) => mux_widths_text(c, options@, widths@),
        Error::MismatchedExprWidths(first, first_width, second, second_width) => err_text(
            "Mismatched wire widths.\nOne side is "@ + bits_text(first_width) + " bits wide:\n"@,
        ) + region(c, first.span) + more_text("The other side is "@ + bits_text(second_width) + " bits wide:\n"@)
            + region(c, second.span),
        Error::MismatchedWireWidths(name, first_width, second, second_width) => err_text(
            quoted_name("Mismatched wire widths.\nThe wire "@, name@, " is declared as "@) + bits_text(first_width)
                + " bits wide.\nBut a "@ + bits_text(second_width) + " bit wide value is assigned to it:\n"@,
        ) + region(c, second.span),
        Error::MismatchedRegisterDefaultWidths {
            bank,
            register_name,
            register_width,
            default_expression,
            expression_width,
        } => err_text(
            quoted_name("Register "@, register_name@, " in bank "@) + quoted_name(""@, bank@, " is "@) + bits_text(
                register_width,
            ) + " bits wide, but default value is "@ + bits_text(expression_width) + " bits wide:\n"@,
        ) + region(c, default_expression.span),
        Error::DuplicateRegister { bank, register_name } => err_text(
            quoted_name("Register "@, register_name@, " in bank "@) + quoted_name(""@, bank@, " defined twice."@),
        ),
        Error::RuntimeMismatchedWidths() => err_text("Unexpected wire width disagreement."@),
        Error::DivisionByZero(expr) => err_text("Division by zero in expression:"@) + region(c, expr.span),
        Error::UndeclaredWireAssigned { name, span, close_name } => err_text(
            quoted_name("Undeclared wire "@, name@, " assigned value:"@),
        ) + region(c, span) + undeclared_hint_text(name@, opt_view(close_name)),
        Error::UndeclaredWireRead { name, expr, close_name } => err_text(
            quoted_name("Usage of undeclared wire "@, name@, " in expression:"@),
        ) + region(c, expr.span) + undeclared_hint_text(name@, opt_view(close_name)),
        Error::NonConstantWireRead(name, expr) => err_text(
            quoted_name("Usage of non-constant wire "@, name@, " in initial or constant value:"@),
        ) + region(c, expr.span),
        Error::UnsetWire(name, span) => err_text(quoted_name("Wire "@, name@, " never assigned but defined here:"@))
            + region(c, span),
        Error::UnsetBuiltinWire(name) => err_text(
            quoted_name("Wire "@, name@, " required by fixed functionality but never assigned."@),
        ),
        Error::UnsetUndeclaredWire(name) => err_text(quoted_name("Wire "@, name@, " was read but never declared."@)),
        Error::UnsetRegisterInputWire { name, register_span } => err_text(
            quoted_name("Wire "@, name@, " never assigned, but is input to the register defined here:"@),
        ) + region(c, register_span),
        Error::RedeclaredWire(name, new_span, old_span) => err_text(
            quoted_name("Wire "@, name@, " redeclared. Declared here:"@),
        ) + region(c, new_span) + more_text("After being declared here here:"@) + region(c, old_span),
        Error::DoubleAssignedWire(name, new_span, old_span) => err_text(
            quoted_name("Wire "@, name@, " assigned twice. Assigned here:"@),
        ) + region(c, new_span) + more_text("After being assigned here:"@) + region(c, old_span),
        Error::DoubleAssignedFixedOutWire { name, span, .. } => err_text(
            quoted_name("Wire "@, name@, " is output for fixed functionality but is assigned here:"@),
        ) + region(c, span),
        Error::DoubleAssignedRegisterWire { name, register_span, assign_span } => err_text(
            quoted_name("Wire "@, name@, " is output of a register declared here:"@),
        ) + region(c, register_span) + more_text(quoted_name("but wire "@, name@, " is assigned directly here:"@))
            + region(c, assign_span),
        Error::DoubleDeclaredRegisterOutWire { name, old_span, new_span } => err_text(
            quoted_name("Wire "@, name@, " used by register declared here:"@),
        ) + region(c, old_span) + more_text("but would also be used by register declared here:"@) + region(
            c,
            new_span,
        ),
        Error::RedeclaredBuiltinWire { name, span, .. } => err_text(
            quoted_name("Builtin wire "@, name@, " redeclared here:"@),
        ) + region(c, span),
        Error::PartialFixedInput { found_inputs, missing_inputs, .. } => err_text(
            "Wire "@ + quoted_list(names_of(found_inputs@)) + " set, but not the rest of this piece of fixed functionality."@,
        ) + if missing_inputs@.len() > 0 {
            more_text(
                "(Did you mean to set "@ + plain_list(names_of(missing_inputs@), missing_inputs@.len()) + "?)"@,
            )
        } else {
            Seq::empty()
        },
        Error::InvalidWireWidth(span) => err_text("Invalid wire width specified."@) + region(c, span),
        Error::InvalidRegisterBankName(name, span) => err_text(
            quoted_name("Register bank name "@, name@, " invalid.\n"@) + "Register bank names must be two characters.\n"@
                + "The first character (input prefix) must be a lowercase letter.\n"@
                + "The second character (output prefix) must be an uppercase lettter."@,
        ) + region(c, span),
        Error::InvalidBitIndex(expr, index) => err_text(
            "Bit index '"@ + dec_digits(index as nat) + "' out of range for expression:"@,
        ) + region(c, expr.span),
        Error::NonBooleanWidth(expr) => err_text("Non-boolean value used with boolean operator:"@) + region(c, expr.span),
        Error::NoBitWidth(expr) => err_text("Expression with unknown width used in bit concatenation:"@) + region(
            c,
            expr.span,
        ),
        Error::MisorderedBitIndexes(expr) => err_text("Bit selection expression selects less than 0 bits:"@) + region(
            c,
            expr.span,
        ),
        Error::MissingWireWidth(span) => err_text("Wire declaration missing width:"@) + region(c, span),
        Error::WireAssignedInDeclaration(span) => err_text("Wire declaration must be separate from assignment:"@)
            + region(c, span),
        Error::MissingRegisterWidth(span) => err_text("Register declaration missing width:"@) + region(c, span),
        Error::AddedConstWidth(span) => err_text("Constant declaration has unsupported explicit width:"@) + region(
            c,
            span,
        ),
        Error::MissingAssignmentMux(span) => err_text("Syntax error; probably missing '=' after here:"@) + region(
            c,
            span,
        ),
        Error::RegisterDeclaredWithWire(span) => err_text(
            "Syntax error; attempting to use 'wire' to declare registers in a register bank?:"@,
        ) + more_text("(correct syntax is like 'register xY { register_name : width = default; }')"@) + region(c, span),
        Error::NoMuxDefaultOption(expr) => err_text(
            "Mux (case expression) missing required default option (e.g. '1 : some_value;'):"@,
        ) + region(c, expr.span),
        Error::MultipleMuxDefaultOption(expr) => err_text(
            "Mux (case expression) has multiple conditions which are always true:"@,
        ) + region(c, expr.span) + more_text(
            "(using constants instead of the result of comparing wires to constants?)"@,
        ),
        Error::UnreachableOptions(expr) => err_text(
            "Mux (case expression) has at least one case that will never be reached:"@,
        ) + region(c, expr.span) + more_text("(put cases after a default case?)"@),
        Error::InvalidConstant(span) => err_text("Constant value is out of range:"@) + region(c, span),
        Error::WireTooWide(expr) => err_text("Expression would produce a value wider than supported (128 bits):"@)
            + region(c, expr.span),
        Error::UnterminatedComment(start) => err_text("Unterminated comment starting here:"@) + c.region_text(
            start as nat,
            if start < usize::MAX - 2 {
                (start + 2) as nat
            } else {
                start as nat
            },
        ),
        Error::LexicalError(start) => err_text("Parse error here:"@) + c.region_text(
            start as nat,
            if start < usize::MAX {
                (start + 1) as nat
            } else {
                start as nat
            },
        ),
        Error::InvalidToken(start) => err_text("Parse error here:"@) + c.region_text(
            start as nat,
            if start < usize::MAX {
                (start + 1) as nat
            } else {
                start as nat
            },
        ),
        Error::EmptyFile() => err_text("Empty input file."@),
        Error::UnparseableLine(line) => err_text(quoted_name("Could not parse "@, line@, " in .yo file."@)),
        Error::UnrecognizedToken { location, expected } => unrecognized_text(c, location, names_of(expected@)),
        Error::ExtraToken(span) => err_text(
            quoted_name("Unexpected token "@, text_in(c.text(), span.0 as nat, span.1 as nat), ":"@),
        ) + region(c, span),
        Error::WireLoop(lst) => err_text("Circular dependency detected:"@) + loop_lines(names_of(lst@), lst@.len()),
        Error::ExpectedStatementFoundExpr(expr) => err_text("Found expression, expected assignment or declaration:"@)
            + region(c, expr.span),
        Error::InternalParserErrorNear(span, info) => err_text("Internal parser error near or before here:"@) + region(
            c,
            span,
        ) + more_text("Syntax error, parser bug, or both.\nInternal info about error: "@ + info@),
    }
}

/// The texts of errors, one after the other.
pub open spec fn errors_text(errors: Seq<Error>, c: FileContents) -> Seq<char>
    decreases errors, 1int,
{
    if errors.len() == 0 {
        Seq::empty()
    } else {
        errors_text(errors.drop_last(), c) + error_text(errors.last(), c)
    }
}

/// The text between two positions of the contents.
fn text_between(contents: &FileContents, start: usize, end: usize) -> (r: String)
    requires
        contents.wf(),
    ensures
        r@ == text_in(contents.text(), start as nat, end as nat),
{
    let chars = contents.chars();
    if start <= end && end <= chars.len() {
        crate::text::string_from_chars(crate::lexer::slice_of(chars, start, end).as_slice())
    } else {
        String::new()
    }
}

fn push_region(out: &mut String, contents: &FileContents, start: usize, end: usize)
    requires
        contents.wf(),
    ensures
        final(out)@ == old(out)@ + contents.region_text(start as nat, end as nat),
{
    push_str(out, contents.show_region(start, end).as_str());
}

fn mismatched_mux_widths(out: &mut String, contents: &FileContents, options: &Vec<MuxOption>, widths: &Vec<WireWidth>)
    requires
        contents.wf(),
    ensures
        final(out)@ == old(out)@ + mux_widths_text(*contents, options@, widths@),
{
    let ghost start = out@;
    error(out, "Mismatched wire widths for mux options.");
    let ghost head = out@;
    let mut sizes: Vec<u8> = Vec::new();
    let mut i: usize = 0;
    while i < widths.len()
        invariant
            i <= widths@.len(),
            sizes@ == width_sizes(widths@, i as nat),
        decreases widths@.len() - i,
    {
        match widths[i] {
            WireWidth::Bits(b) => {
                let mut pos: usize = 0;
                let mut present = false;
                while pos < sizes.len() && sizes[pos] <= b
                    invariant
                        pos <= sizes@.len(),
                        first_above(sizes@, b, 0) == first_above(sizes@, b, pos as nat),
                        present == sizes@.take(pos as int).contains(b),
                    decreases sizes@.len() - pos,
                {
                    let ghost t = sizes@.take(pos as int);
                    assert(sizes@.take(pos + 1) =~= t.push(sizes@[pos as int]));
                    if sizes[pos] == b {
                        present = true;
                        assert(sizes@.take(pos + 1)[pos as int] == b);
                    }
                    proof {
                        if sizes@.take(pos + 1).contains(b) && sizes@[pos as int] != b {
                            let j = sizes@.take(pos + 1).index_of(b);
                            assert(t[j] == b);
                        }
                        if t.contains(b) {
                            let j = t.index_of(b);
                            assert(sizes@.take(pos + 1)[j] == b);
                        }
                    }
                    pos = pos + 1;
                }
                if !present {
                    sizes.insert(pos, b);
                }
            },
            WireWidth::Unlimited => {},
        }
        i = i + 1;
    }
    let ghost all_sizes = sizes@;
    let m = if widths.len() <= options.len() {
        widths.len()
    } else {
        options.len()
    };
    let mut k: usize = 0;
    while k < sizes.len()
        invariant
            k <= sizes@.len(),
            contents.wf(),
            all_sizes == sizes@,
            all_sizes == width_sizes(widths@, widths@.len()),
            m as nat == if widths@.len() <= options@.len() {
                widths@.len()
            } else {
                options@.len()
            },
            out@ == head + mux_sizes_text(*contents, options@, widths@, all_sizes, k as nat),
        decreases sizes@.len() - k,
    {
        let b = sizes[k];
        let mut count: usize = 0;
        let mut i: usize = 0;
        while i < widths.len() && i < options.len()
            invariant
                i <= m,
                m <= widths@.len(),
                m <= options@.len(),
                m as nat == if widths@.len() <= options@.len() {
                    widths@.len()
                } else {
                    options@.len()
                },
                count <= i,
                count as nat == width_count(widths@, b, i as nat),
            decreases widths@.len() - i,
        {
            if widths[i] == WireWidth::Bits(b) {
                count = count + 1;
            }
            i = i + 1;
        }
        let mut line = String::new();
        push_dec(&mut line, count as u128);
        push_str(&mut line, " option");
        push_str(&mut line, s_are(count));
        push_str(&mut line, " ");
        push_dec(&mut line, b as u128);
        push_str(&mut line, " bits wide:\n");
        error_continue(out, line.as_str());
        let ghost mid = out@;
        let mut i: usize = 0;
        while i < widths.len() && i < options.len()
            invariant
                i <= m,
                m <= widths@.len(),
                m <= options@.len(),
                m as nat == if widths@.len() <= options@.len() {
                    widths@.len()
                } else {
                    options@.len()
                },
                contents.wf(),
                out@ == mid + mux_regions(*contents, options@, widths@, b, i as nat),
            decreases widths@.len() - i,
        {
            if widths[i] == WireWidth::Bits(b) {
                push_region(out, contents, options[i].value.span.0, options[i].value.span.1);
            }
            i = i + 1;
        }
        k = k + 1;
    }
}

/// The hint after an undeclared name: a name that differs only in case, a missing
/// register bank for a name like `x_foo`, or a declaration.
fn undeclared_hint(out: &mut String, name: &String, close_name: &Option<String>)
    ensures
        final(out)@ == old(out)@ + undeclared_hint_text(name@, opt_view(*close_name)),
{
    match close_name {
        Some(other) => {
            let mut m = String::from_str("(Did you mean '");
            push_str(&mut m, other.as_str());
            push_str(&mut m, "'?)");
            error_continue(out, m.as_str());
        },
        None => {
            let chars = crate::text::chars_of(name.as_str());
            if chars.len() > 2 && chars[1] == '_' {
                error_continue(out, "(Missing register declaration?)");
            } else {
                let mut m = String::from_str("(Did you mean to declare it with 'wire ");
                push_str(&mut m, name.as_str());
                push_str(&mut m, "' or 'const ");
                push_str(&mut m, name.as_str());
                push_str(&mut m, "'?)");
                error_continue(out, m.as_str());
            }
        },
    }
}

/// A message with a name in quotes: `before'name'after`.
fn quoted(before: &str, name: &str, after: &str) -> (r: String)
    ensures
        r@ == quoted_name(before@, name@, after@),
{
    let mut m = String::from_str(before);
    push_str(&mut m, "'");
    push_str(&mut m, name);
    push_str(&mut m, "'");
    push_str(&mut m, after);
    m
}

/// The texts of errors, one after the other.
fn format_all(errors: &Vec<Error>, contents: &FileContents) -> (r: String)
    requires
        contents.wf(),
    ensures
        r@ == errors_text(errors@, *contents),
    decreases errors@, 1int,
{
    let mut out = String::new();
    let mut i: usize = 0;
    assert(errors@.take(0) =~= Seq::<Error>::empty());
    while i < errors.len()
        invariant
            i <= errors@.len(),
            contents.wf(),
            out@ == errors_text(errors@.take(i as int), *contents),
        decreases errors@.len() - i,
    {
        assert(decreases_to!(errors@ => errors@[i as int]));
        assert(errors@.take(i + 1).drop_last() =~= errors@.take(i as int));
        assert(errors@.take(i + 1).last() == errors@[i as int]);
        push_str(&mut out, errors[i].format_for_contents_str(contents).as_str());
        i = i + 1;
    }
    assert(errors@.take(errors@.len() as int) =~= errors@);
    out
}

impl Error {
    /// The text of the error, with the lines of the contents it points at.
    pub fn format_for_contents_str(&self, contents: &FileContents) -> (r: String)
        requires
            contents.wf(),
        ensures
            r@ == error_text(*self, *contents),
        decreases self, 0int,
    {
        let mut out = String::new();
        match self {
            Error::MultipleErrors(errors) => {
                push_str(&mut out, format_all(errors, contents).as_str());
            },
            Error::MismatchedMuxWidths(options, widths) => {
                mismatched_mux_widths(&mut out, contents, options, widths);
            },
            Error::MismatchedExprWidths(first, first_width, second, second_width) => {
                let mut m = String::from_str("Mismatched wire widths.\nOne side is ");
                push_dec(&mut m, first_width.bits_or_128() as u128);
                push_str(&mut m, " bits wide:\n");
                error(&mut out, m.as_str());
                push_region(&mut out, contents, first.span.0, first.span.1);
                let mut m = String::from_str("The other side is ");
                push_dec(&mut m, second_width.bits_or_128() as u128);
                push_str(&mut m, " bits wide:\n");
                error_continue(&mut out, m.as_str());
                push_region(&mut out, contents, second.span.0, second.span.1);
            },
            Error::MismatchedWireWidths(name, first_width, second, second_width) => {
                let mut m = quoted("Mismatched wire widths.\nThe wire ", name.as_str(), " is declared as ");
                push_dec(&mut m, first_width.bits_or_128() as u128);
                push_str(&mut m, " bits wide.\nBut a ");
                push_dec(&mut m, second_width.bits_or_128() as u128);
                push_str(&mut m, " bit wide value is assigned to it:\n");
                error(&mut out, m.as_str());
                push_region(&mut out, contents, second.span.0, second.span.1);
            },
            Error::MismatchedRegisterDefaultWidths {
                bank,
                register_name,
                register_width,
                default_expression,
                expression_width,
            } => {
                let mut m = quoted("Register ", register_name.as_str(), " in bank ");
                push_str(&mut m, quoted("", bank.as_str(), " is ").as_str());
                push_dec(&mut m, register_width.bits_or_128() as u128);
                push_str(&mut m, " bits wide, but default value is ");
                push_dec(&mut m, expression_width.bits_or_128() as u128);
                push_str(&mut m, " bits wide:\n");
                error(&mut out, m.as_str());
                push_region(&mut out, contents, default_expression.span.0, default_expression.span.1);
            },
            Error::DuplicateRegister { bank, register_name } => {
                let mut m = quoted("Register ", register_name.as_str(), " in bank ");
                push_str(&mut m, quoted("", bank.as_str(), " defined twice.").as_str());
                error(&mut out, m.as_str());
            },
            Error::RuntimeMismatchedWidths() => {
                error(&mut out, "Unexpected wire width disagreement.");
            },
            Error::DivisionByZero(expr) => {
                error(&mut out, "Division by zero in expression:");
                push_region(&mut out, contents, expr.span.0, expr.span.1);
            },
            Error::UndeclaredWireAssigned { name, span, close_name } => {
                error(&mut out, quoted("Undeclared wire ", name.as_str(), " assigned value:").as_str());
                push_region(&mut out, contents, span.0, span.1);
                undeclared_hint(&mut out, name, close_name);
            },
            Error::UndeclaredWireRead { name, expr, close_name } => {
                error(&mut out, quoted("Usage of undeclared wire ", name.as_str(), " in expression:").as_str());
                push_region(&mut out, contents, expr.span.0, expr.span.1);
                undeclared_hint(&mut out, name, close_name);
            },
            Error::NonConstantWireRead(name, expr) => {
                error(
                    &mut out,
                    quoted("Usage of non-constant wire ", name.as_str(), " in initial or constant value:").as_str(),
                );
                push_region(&mut out, contents, expr.span.0, expr.span.1);
            },
            Error::UnsetWire(name, span) => {
                error(&mut out, quoted("Wire ", name.as_str(), " never assigned but defined here:").as_str());
                push_region(&mut out, contents, span.0, span.1);
            },
            Error::UnsetBuiltinWire(name) => {
                error(
                    &mut out,
                    quoted("Wire ", name.as_str(), " required by fixed functionality but never assigned.").as_str(),
                );
            },
            Error::UnsetUndeclaredWire(name) => {
                error(&mut out, quoted("Wire ", name.as_str(), " was read but never declared.").as_str());
            },
            Error::UnsetRegisterInputWire { name, register_span } => {
                error(
                    &mut out,
                    quoted("Wire ", name.as_str(), " never assigned, but is input to the register defined here:").as_str(),
                );
                push_region(&mut out, contents, register_span.0, register_span.1);
            },
            Error::RedeclaredWire(name, new_span, old_span) => {
                error(&mut out, quoted("Wire ", name.as_str(), " redeclared. Declared here:").as_str());
                push_region(&mut out, contents, new_span.0, new_span.1);
                error_continue(&mut out, "After being declared here here:");
                push_region(&mut out, contents, old_span.0, old_span.1);
            },
            Error::DoubleAssignedWire(name, new_span, old_span) => {
                error(&mut out, quoted("Wire ", name.as_str(), " assigned twice. Assigned here:").as_str());
                push_region(&mut out, contents, new_span.0, new_span.1);
                error_continue(&mut out, "After being assigned here:");
                push_region(&mut out, contents, old_span.0, old_span.1);
            },
            Error::DoubleAssignedFixedOutWire { name, span, .. } => {
                error(
                    &mut out,
                    quoted("Wire ", name.as_str(), " is output for fixed functionality but is assigned here:").as_str(),
                );
                push_region(&mut out, contents, span.0, span.1);
            },
            Error::DoubleAssignedRegisterWire { name, register_span, assign_span } => {
                error(&mut out, quoted("Wire ", name.as_str(), " is output of a register declared here:").as_str());
                push_region(&mut out, contents, register_span.0, register_span.1);
                error_continue(&mut out, quoted("but wire ", name.as_str(), " is assigned directly here:").as_str());
                push_region(&mut out, contents, assign_span.0, assign_span.1);
            },
            Error::DoubleDeclaredRegisterOutWire { name, old_span, new_span } => {
                error(&mut out, quoted("Wire ", name.as_str(), " used by register declared here:").as_str());
                push_region(&mut out, contents, old_span.0, old_span.1);
                error_continue(&mut out, "but would also be used by register declared here:");
                push_region(&mut out, contents, new_span.0, new_span.1);
            },
            Error::RedeclaredBuiltinWire { name, span, .. } => {
                error(&mut out, quoted("Builtin wire ", name.as_str(), " redeclared here:").as_str());
                push_region(&mut out, contents, span.0, span.1);
            },
            Error::PartialFixedInput { found_inputs, missing_inputs, .. } => {
                let mut m = String::from_str("Wire ");
                push_str(&mut m, list_with_and(found_inputs).as_str());
                push_str(&mut m, " set, but not the rest of this piece of fixed functionality.");
                error(&mut out, m.as_str());
                if missing_inputs.len() > 0 {
                    let mut m = String::from_str("(Did you mean to set ");
                    push_str(&mut m, list_with_and_plain(missing_inputs).as_str());
                    push_str(&mut m, "?)");
                    error_continue(&mut out, m.as_str());
                }
            },
            Error::InvalidWireWidth(span) => {
                error(&mut out, "Invalid wire width specified.");
                push_region(&mut out, contents, span.0, span.1);
            },
            Error::InvalidRegisterBankName(name, span) => {
                let mut m = quoted("Register bank name ", name.as_str(), " invalid.\n");
                push_str(&mut m, "Register bank names must be two characters.\n");
                push_str(&mut m, "The first character (input prefix) must be a lowercase letter.\n");
                push_str(&mut m, "The second character (output prefix) must be an uppercase lettter.");
                error(&mut out, m.as_str());
                push_region(&mut out, contents, span.0, span.1);
            },
            Error::InvalidBitIndex(expr, index) => {
                let mut m = String::from_str("Bit index '");
                push_dec(&mut m, *index as u128);
                push_str(&mut m, "' out of range for expression:");
                error(&mut out, m.as_str());
                push_region(&mut out, contents, expr.span.0, expr.span.1);
            },
            Error::NonBooleanWidth(expr) => {
                error(&mut out, "Non-boolean value used with boolean operator:");
                push_region(&mut out, contents, expr.span.0, expr.span.1);
            },
            Error::NoBitWidth(expr) => {
                error(&mut out, "Expression with unknown width used in bit concatenation:");
                push_region(&mut out, contents, expr.span.0, expr.span.1);
            },
            Error::MisorderedBitIndexes(expr) => {
                error(&mut out, "Bit selection expression selects less than 0 bits:");
                push_region(&mut out, contents, expr.span.0, expr.span.1);
            },
            Error::MissingWireWidth(span) => {
                error(&mut out, "Wire declaration missing width:");
                push_region(&mut out, contents, span.0, span.1);
            },
            Error::WireAssignedInDeclaration(span) => {
                error(&mut out, "Wire declaration must be separate from assignment:");
                push_region(&mut out, contents, span.0, span.1);
            },
            Error::MissingRegisterWidth(span) => {
                error(&mut out, "Register declaration missing width:");
                push_region(&mut out, contents, span.0, span.1);
            },
            Error::AddedConstWidth(span) => {
                error(&mut out, "Constant declaration has unsupported explicit width:");
                push_region(&mut out, contents, span.0, span.1);
            },
            Error::MissingAssignmentMux(span) => {
                error(&mut out, "Syntax error; probably missing '=' after here:");
                push_region(&mut out, contents, span.0, span.1);
            },
            Error::RegisterDeclaredWithWire(span) => {
                error(&mut out, "Syntax error; attempting to use 'wire' to declare registers in a register bank?:");
                error_continue(&mut out, "(correct syntax is like 'register xY { register_name : width = default; }')");
                push_region(&mut out, contents, span.0, span.1);
            },
            Error::NoMuxDefaultOption(expr) => {
                error(&mut out, "Mux (case expression) missing required default option (e.g. '1 : some_value;'):");
                push_region(&mut out, contents, expr.span.0, expr.span.1);
            },
            Error::MultipleMuxDefaultOption(expr) => {
                error(&mut out, "Mux (case expression) has multiple conditions which are always true:");
                push_region(&mut out, contents, expr.span.0, expr.span.1);
                error_continue(&mut out, "(using constants instead of the result of comparing wires to constants?)");
            },
            Error::UnreachableOptions(expr) => {
                error(&mut out, "Mux (case expression) has at least one case that will never be reached:");
                push_region(&mut out, contents, expr.span.0, expr.span.1);
                error_continue(&mut out, "(put cases after a default case?)");
            },
            Error::InvalidConstant(span) => {
                error(&mut out, "Constant value is out of range:");
                push_region(&mut out, contents, span.0, span.1);
            },
            Error::WireTooWide(expr) => {
                error(&mut out, "Expression would produce a value wider than supported (128 bits):");
                push_region(&mut out, contents, expr.span.0, expr.span.1);
            },
            Error::UnterminatedComment(start) => {
                error(&mut out, "Unterminated comment starting here:");
                let end = if *start < usize::MAX - 2 {
                    *start + 2
                } else {
                    *start
                };
                push_region(&mut out, contents, *start, end);
            },
            Error::LexicalError(start) | Error::InvalidToken(start) => {
                error(&mut out, "Parse error here:");
                let end = if *start < usize::MAX {
                    *start + 1
                } else {
                    *start
                };
                push_region(&mut out, contents, *start, end);
            },
            Error::EmptyFile() => {
                error(&mut out, "Empty input file.");
            },
            Error::UnparseableLine(line) => {
                error(&mut out, quoted("Could not parse ", line.as_str(), " in .yo file.").as_str());
            },
            Error::UnrecognizedToken { location, expected } => {
                let token = if location.1 >= contents.chars().len() {
                    String::from_str("<end of file>")
                } else {
                    text_between(contents, location.0, location.1)
                };
                let mut m = quoted("Unexpected token ", token.as_str(), ", expected ");
                push_str(&mut m, format_token_list(expected).as_str());
                push_str(&mut m, ":");
                error(&mut out, m.as_str());
                if contains_name(expected, "\";\"") {
                    let (_, start, _) = contents.line_number_and_bounds(location.0);
                    let before = text_between(contents, start, location.0);
                    let chars = crate::text::chars_of(before.as_str());
                    let mut blank = true;
                    let mut i: usize = 0;
                    while i < chars.len()
                        invariant
                            i <= chars@.len(),
                            blank == forall|j: int| 0 <= j < i ==> char_is_whitespace(#[trigger] chars@[j]),
                        decreases chars@.len() - i,
                    {
                        if !crate::lexer::is_whitespace(chars[i]) {
                            blank = false;
                        }
                        i = i + 1;
                    }
                    if blank {
                        error_continue(&mut out, "(Missing semicolon before this?)");
                    }
                }
                push_region(&mut out, contents, location.0, location.1);
            },
            Error::ExtraToken(span) => {
                let token = text_between(contents, span.0, span.1);
                error(&mut out, quoted("Unexpected token ", token.as_str(), ":").as_str());
                push_region(&mut out, contents, span.0, span.1);
            },
            Error::WireLoop(lst) => {
                error(&mut out, "Circular dependency detected:");
                let ghost head = out@;
                let n = lst.len();
                let mut i: usize = 0;
                while i < n
                    invariant
                        n == lst@.len(),
                        i <= n,
                        out@ == head + loop_lines(names_of(lst@), i as nat),
                    decreases n - i,
                {
                    let next = if i + 1 < n {
                        i + 1
                    } else {
                        0
                    };
                    let mut m = quoted("  ", lst[next].as_str(), " depends on ");
                    push_str(&mut m, quoted("", lst[i].as_str(), "").as_str());
                    if i + 1 < n {
                        push_str(&mut m, " and");
                    }
                    error_continue(&mut out, m.as_str());
                    i = i + 1;
                }
            },
            Error::ExpectedStatementFoundExpr(expr) => {
                error(&mut out, "Found expression, expected assignment or declaration:");
                push_region(&mut out, contents, expr.span.0, expr.span.1);
            },
            Error::InternalParserErrorNear(span, info) => {
                error(&mut out, "Internal parser error near or before here:");
                push_region(&mut out, contents, span.0, span.1);
                let mut m = String::from_str("Syntax error, parser bug, or both.\nInternal info about error: ");
                push_str(&mut m, info.as_str());
                error_continue(&mut out, m.as_str());
            },
        }
        out
    }

    /// Writes the text of the error (see `format_for_contents_str`) to `output`.
    pub fn format_for_contents(&self, output: &mut Vec<u8>, contents: &FileContents) -> (r: Result<(), Error>)
        requires
            contents.wf(),
        ensures
            r is Ok,
            final(output)@ == old(output)@ + crate::text::utf8(error_text(*self, *contents)),
    {
        let text = self.format_for_contents_str(contents);
        append_utf8(output, text.as_str());
        Ok(())
    }
}

} // verus!
