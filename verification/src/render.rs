//! Textual rendering of a dictionary's entries: `{k1: v1, k2: v2}` in
//! iteration order, comma-space separated, with no trailing separator, and
//! `{}` for an empty dictionary. The keys and values arrive here already in
//! their own display form.

use vstd::prelude::*;

verus! {

/// The views of a sequence of strings.
pub open spec fn views_of(s: Seq<String>) -> Seq<Seq<char>> {
    s.map_values(|x: String| x@)
}

/// The text of the entries from position `i` on: each key followed by
/// `": "` and its value, with `", "` before every entry but the first of
/// the whole list.
pub open spec fn entries_text(keys: Seq<Seq<char>>, vals: Seq<Seq<char>>, i: int) -> Seq<char>
    decreases keys.len() - i,
{
    if i < 0 || i >= keys.len() {
        Seq::empty()
    } else {
        let sep: Seq<char> = if i > 0 {
            ", "@
        } else {
            Seq::empty()
        };
        sep + keys[i] + ": "@ + vals[i] + entries_text(keys, vals, i + 1)
    }
}

/// The full rendering: the entry list between one opening and one closing
/// brace.
pub open spec fn rendered(keys: Seq<Seq<char>>, vals: Seq<Seq<char>>) -> Seq<char> {
    "{"@ + entries_text(keys, vals, 0) + "}"@
}

/// The text of the entries of `keys` and `vals` from position `i` on.
fn render_tail(keys: &Vec<String>, vals: &Vec<String>, i: usize) -> (r: String)
    requires
        keys@.len() == vals@.len(),
    ensures
        r@ == entries_text(views_of(keys@), views_of(vals@), i as int),
    decreases keys@.len() - i,
{
    let mut r = String::new();
    if i >= keys.len() {
        return r;
    }
    if i > 0 {
        r.append(", ");
    }
    r.append(keys[i].as_str());
    r.append(": ");
    r.append(vals[i].as_str());
    let rest = render_tail(keys, vals, i + 1);
    r.append(rest.as_str());
    proof {
        assert(views_of(keys@)[i as int] == keys@[i as int]@);
        assert(views_of(vals@)[i as int] == vals@[i as int]@);
        assert(r@ =~= entries_text(views_of(keys@), views_of(vals@), i as int));
    }
    r
}

/// The rendering of parallel sequences of key and value texts, in order:
/// `{k1: v1, k2: v2}`, and `{}` when there is no entry.
pub fn render_entries(keys: &Vec<String>, vals: &Vec<String>) -> (r: String)
    requires
        keys@.len() == vals@.len(),
    ensures
        r@ == rendered(views_of(keys@), views_of(vals@)),
{
    let mut r = String::from_str("{");
    let body = render_tail(keys, vals, 0);
    r.append(body.as_str());
    r.append("}");
    proof {
        assert(r@ =~= rendered(views_of(keys@), views_of(vals@)));
    }
    r
}

} // verus!
