//! Accessibility labels of UI nodes, taken from the text of their children.
use vstd::prelude::*;
use vstd::string::StringExecFns;

verus! {

/// The parts joined with `sep` between neighbours.
pub open spec fn join_spec(parts: Seq<Seq<char>>, sep: Seq<char>) -> Seq<char>
    decreases parts.len(),
{
    if parts.len() == 0 {
        Seq::empty()
    } else if parts.len() == 1 {
        parts[0]
    } else {
        join_spec(parts.drop_last(), sep) + sep + parts.last()
    }
}

/// The texts of each child, as character sequences.
pub open spec fn texts_view(children: Seq<Vec<String>>) -> Seq<Seq<Seq<char>>> {
    children.map_values(|v: Vec<String>| v@.map_values(|s: String| s@))
}

/// The label of a node: the texts of its last child that has any text, joined by spaces;
/// none where no child has text.
pub open spec fn label_spec(children: Seq<Seq<Seq<char>>>) -> Option<Seq<char>>
    decreases children.len(),
{
    if children.len() == 0 {
        None
    } else if children.last().len() > 0 {
        Some(join_spec(children.last(), seq![' ']))
    } else {
        label_spec(children.drop_last())
    }
}

/// Joins `parts` with single spaces between neighbours.
pub fn join_with_spaces(parts: &Vec<String>) -> (r: String)
    ensures
        r@ == join_spec(parts@.map_values(|s: String| s@), seq![' ']),
{
    let ghost view = parts@.map_values(|s: String| s@);
    let mut out = String::new();
    let mut i: usize = 0;
    while i < parts.len()
        invariant
            0 <= i <= parts@.len(),
            view == parts@.map_values(|s: String| s@),
            out@ == join_spec(view.take(i as int), seq![' ']),
        decreases parts@.len() - i,
    {
        proof {
            reveal_strlit(" ");
        }
        if i > 0 {
            out.append(" ");
        }
        out.append(parts[i].as_str());
        proof {
            let t = view.take(i as int + 1);
            assert(t.drop_last() =~= view.take(i as int));
            if i == 0 {
                assert(out@ =~= t[0]);
            } else {
                assert(out@ =~= join_spec(t.drop_last(), seq![' ']) + seq![' '] + t.last());
            }
        }
        i = i + 1;
    }
    assert(view.take(parts@.len() as int) =~= view);
    out
}

/// The accessibility label of a node from the texts of its children, in child order: the
/// texts of the last child that has any text, joined by spaces.
pub fn calc_label(children: &Vec<Vec<String>>) -> (r: Option<String>)
    ensures
        match label_spec(texts_view(children@)) {
            Some(l) => r matches Some(s) && s@ == l,
            None => r.is_none(),
        },
{
    let ghost view = texts_view(children@);
    let mut name: Option<String> = None;
    let mut i: usize = 0;
    while i < children.len()
        invariant
            0 <= i <= children@.len(),
            view == texts_view(children@),
            match label_spec(view.take(i as int)) {
                Some(l) => name matches Some(s) && s@ == l,
                None => name.is_none(),
            },
        decreases children@.len() - i,
    {
        let values = &children[i];
        proof {
            let t = view.take(i as int + 1);
            assert(t.drop_last() =~= view.take(i as int));
            assert(t.last() == values@.map_values(|s: String| s@));
        }
        if values.len() > 0 {
            name = Some(join_with_spaces(values));
        }
        i = i + 1;
    }
    assert(view.take(children@.len() as int) =~= view);
    name
}

} // verus!
