use vstd::prelude::*;
use vstd::string::*;

use crate::numbers::{decimal, parse_usize, parse_usize_chars, split_words, usize_to_string, words};
use crate::text::{chars_of, concat3, string_of};

verus! {

/// The message for a polygon that is not a triangle because it has more vertices.
pub open spec fn too_many_vertices_message(v: usize) -> Seq<char> {
    "Mesh has polygon with "@ + decimal(v as nat)
        + " vertices, but only triangles are allowed. You need triangulate you mesh( Alt+T in edit mode for blender )"@
}

/// The message for a polygon with fewer than three vertices.
pub open spec fn not_triangle_message(v: usize) -> Seq<char> {
    "Mesh can contain only triangles, but polygon with "@ + decimal(v as nat)
        + " vertices has been found"@
}

/// Checking the vertex counts `ws` of the polygons, from polygon `index` on:
/// there are no more than `count` polygons and each is a triangle.
pub open spec fn vcount_result(ws: Seq<Seq<char>>, index: nat, count: usize) -> Result<(), Seq<char>>
    decreases ws.len(),
{
    if ws.len() == 0 {
        Ok(())
    } else if index >= count {
        Err("<vcount> content has more polygons than specified"@)
    } else {
        match parse_usize(ws[0]) {
            None => Err("Can not parse vertex count for polygon \""@ + ws[0] + "\""@),
            Some(v) => if v > 3 {
                Err(too_many_vertices_message(v))
            } else if v != 3 {
                Err(not_triangle_message(v))
            } else {
                vcount_result(ws.drop_first(), index + 1, count)
            },
        }
    }
}

/// Checks the content of `<vcount>`: at most `polygonsCount` polygons, all triangles.
#[allow(non_snake_case)]
pub fn check_vcount(text: &str, polygonsCount: usize) -> (r: Result<(), String>)
    ensures
        match vcount_result(words(text@), 0, polygonsCount) {
            Ok(()) => r is Ok,
            Err(m) => r matches Err(e) && e@ == m,
        },
{
    let v = chars_of(text);
    let spans = split_words(&v);
    let ghost ws = words(v@);
    let mut index: usize = 0;
    assert(ws.skip(0) =~= ws);
    while index < spans.len()
        invariant
            v@ == text@,
            ws == words(v@),
            spans@.len() == ws.len(),
            forall|k: int|
                #![trigger spans@[k]]
                0 <= k < spans@.len() ==> spans@[k].0 <= spans@[k].1 <= v@.len() && v@.subrange(
                    spans@[k].0 as int,
                    spans@[k].1 as int,
                ) == ws[k],
            index <= spans@.len(),
            index <= polygonsCount,
            vcount_result(ws, 0, polygonsCount) == vcount_result(
                ws.skip(index as int),
                index as nat,
                polygonsCount,
            ),
        decreases spans@.len() - index,
    {
        let (a, b) = spans[index];
        assert(ws.skip(index as int)[0] == ws[index as int]);
        assert(ws.skip(index as int).drop_first() =~= ws.skip(index + 1));
        if index >= polygonsCount {
            return Err(String::from_str("<vcount> content has more polygons than specified"));
        }
        match parse_usize_chars(&v, a, b) {
            Some(vcount) => {
                if vcount > 3 {
                    let n = usize_to_string(vcount);
                    let m = concat3(
                        "Mesh has polygon with ",
                        n.as_str(),
                        " vertices, but only triangles are allowed. You need triangulate you mesh( Alt+T in edit mode for blender )",
                    );
                    return Err(m);
                } else if vcount != 3 {
                    let n = usize_to_string(vcount);
                    let m = concat3(
                        "Mesh can contain only triangles, but polygon with ",
                        n.as_str(),
                        " vertices has been found",
                    );
                    return Err(m);
                }
            },
            None => {
                let w = string_of(&v, a, b);
                let m = concat3("Can not parse vertex count for polygon \"", w.as_str(), "\"");
                return Err(m);
            },
        }
        index = index + 1;
    }
    assert(ws.skip(index as int) =~= Seq::<Seq<char>>::empty());
    Ok(())
}

/// The polygon indexes `ws` as numbers, or the message for the first one that
/// is not a number.
pub open spec fn indexes_result(ws: Seq<Seq<char>>) -> Result<Seq<usize>, Seq<char>>
    decreases ws.len(),
{
    if ws.len() == 0 {
        Ok(Seq::empty())
    } else {
        match parse_usize(ws[0]) {
            None => Err("Can not parse indexes polygon \""@ + ws[0] + "\""@),
            Some(i) => match indexes_result(ws.drop_first()) {
                Ok(rest) => Ok(seq![i] + rest),
                Err(m) => Err(m),
            },
        }
    }
}

/// The indexes of `done` followed by those of a parse that succeeds.
pub open spec fn after_indexes(done: Seq<usize>, r: Result<Seq<usize>, Seq<char>>) -> Result<
    Seq<usize>,
    Seq<char>,
> {
    match r {
        Ok(rest) => Ok(done + rest),
        Err(m) => Err(m),
    }
}

/// Reads the content of `<p>`: the polygon indexes separated by spaces.
pub fn parse_indexes(text: &str) -> (r: Result<Vec<usize>, String>)
    ensures
        match indexes_result(words(text@)) {
            Ok(v) => r matches Ok(x) && x@ == v,
            Err(m) => r matches Err(e) && e@ == m,
        },
{
    let v = chars_of(text);
    let spans = split_words(&v);
    let ghost ws = words(v@);
    let mut buffer: Vec<usize> = Vec::new();
    let mut index: usize = 0;
    assert(ws.skip(0) =~= ws);
    assert forall|r: Result<Seq<usize>, Seq<char>>| after_indexes(buffer@, r) == r by {
        if let Ok(rest) = r {
            assert(buffer@ + rest =~= rest);
        }
    }
    while index < spans.len()
        invariant
            v@ == text@,
            ws == words(v@),
            spans@.len() == ws.len(),
            forall|k: int|
                #![trigger spans@[k]]
                0 <= k < spans@.len() ==> spans@[k].0 <= spans@[k].1 <= v@.len() && v@.subrange(
                    spans@[k].0 as int,
                    spans@[k].1 as int,
                ) == ws[k],
            index <= spans@.len(),
            indexes_result(ws) == after_indexes(buffer@, indexes_result(ws.skip(index as int))),
        decreases spans@.len() - index,
    {
        let (a, b) = spans[index];
        assert(ws.skip(index as int)[0] == ws[index as int]);
        assert(ws.skip(index as int).drop_first() =~= ws.skip(index + 1));
        match parse_usize_chars(&v, a, b) {
            Some(i) => {
                let ghost before = buffer@;
                buffer.push(i);
                assert forall|rest: Seq<usize>|
                    #![trigger before + (seq![i] + rest)]
                    before + (seq![i] + rest) == buffer@ + rest by {
                    assert(before + (seq![i] + rest) =~= buffer@ + rest);
                }
            },
            None => {
                let w = string_of(&v, a, b);
                let m = concat3("Can not parse indexes polygon \"", w.as_str(), "\"");
                return Err(m);
            },
        }
        index = index + 1;
    }
    assert(ws.skip(index as int) =~= Seq::<Seq<char>>::empty());
    assert(buffer@ + Seq::<usize>::empty() =~= buffer@);
    Ok(buffer)
}

} // verus!
