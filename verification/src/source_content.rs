use vstd::prelude::*;
use vstd::string::*;

use crate::collada::{end_message, Parser};
use crate::numbers::{fields, parse_i32, parse_i32_chars, split_fields};
use crate::reader::find_attribute;
use crate::text::{chars_of, concat3, str_eq, string_of};
use crate::xml::{last_attribute, Event};

verus! {

/// One parameter of a `<source>` with its values: the values of a floating-point
/// parameter as their text, those of an integer parameter as numbers.
pub enum SourceColumn {
    Float(String, Vec<String>),
    Int(String, Vec<i32>),
}

/// A parameter with its values, as a mathematical value.
pub enum SpecColumn {
    Float(Seq<char>, Seq<Seq<char>>),
    Int(Seq<char>, Seq<i32>),
}

impl View for SourceColumn {
    type V = SpecColumn;

    open spec fn view(&self) -> SpecColumn {
        match self {
            SourceColumn::Float(n, v) => SpecColumn::Float(n@, v@.map_values(|x: String| x@)),
            SourceColumn::Int(n, v) => SpecColumn::Int(n@, v@),
        }
    }
}

/// What the walk through a `<source>` has gathered: how deep it is in the
/// elements of the source, whether it is inside a value array, the values of
/// the arrays as text, and the parameters with their names and types.
#[verifier::ext_equal]
pub struct SourceWalk {
    pub depth: nat,
    pub in_array: bool,
    pub words: Seq<Seq<char>>,
    pub params: Seq<(Seq<char>, Seq<char>)>,
}

/// The message for a parameter without a name.
pub open spec fn param_name_message(ty: Seq<char>) -> Seq<char> {
    "Param of source \""@ + ty + "\" needs name"@
}

/// Reading the content of the `<source>` of type `ty` after its start tag, up
/// to its end tag, from the state `w`: the text of `<float_array>` and
/// `<int_array>` split at white space, and each `<param>` with its `name` and
/// its `type` (`float` where it has none). The state at the end tag, or the
/// message of the first error, and how many events are read.
pub open spec fn source_walk(evs: Seq<Event>, failure: Option<Seq<char>>, ty: Seq<char>, w: SourceWalk) -> (
    Result<SourceWalk, Seq<char>>,
    nat,
)
    decreases evs.len(),
{
    if evs.len() == 0 {
        (Err(end_message(failure)), 0)
    } else {
        match evs[0] {
            Event::EndDocument => (Err("Unexpected end of file"@), 1),
            Event::StartElement { name, attributes } => {
                let l = name.local_name@;
                let deeper = SourceWalk {
                    depth: w.depth + 1,
                    in_array: if l == "float_array"@ || l == "int_array"@ {
                        true
                    } else {
                        w.in_array
                    },
                    words: w.words,
                    params: w.params,
                };
                if l == "param"@ {
                    match last_attribute(attributes@, "name"@) {
                        None => (Err(param_name_message(ty)), 1),
                        Some(pn) => {
                            let pt = match last_attribute(attributes@, "type"@) {
                                Some(t) => t,
                                None => "float"@,
                            };
                            let (r, n) = source_walk(
                                evs.drop_first(),
                                failure,
                                ty,
                                SourceWalk { params: w.params.push((pn, pt)), ..deeper },
                            );
                            (r, n + 1)
                        },
                    }
                } else {
                    let (r, n) = source_walk(evs.drop_first(), failure, ty, deeper);
                    (r, n + 1)
                }
            },
            Event::EndElement { name } => if w.depth == 0 {
                if name.local_name@ == "source"@ {
                    (Ok(w), 1)
                } else {
                    (Err("Unexpected end tag \""@ + name.local_name@ + "\""@), 1)
                }
            } else {
                let (r, n) = source_walk(
                    evs.drop_first(),
                    failure,
                    ty,
                    SourceWalk { depth: (w.depth - 1) as nat, in_array: false, ..w },
                );
                (r, n + 1)
            },
            Event::Characters(t) => {
                let w2 = if w.in_array {
                    SourceWalk { words: w.words + fields(t@), ..w }
                } else {
                    w
                };
                let (r, n) = source_walk(evs.drop_first(), failure, ty, w2);
                (r, n + 1)
            },
            _ => {
                let (r, n) = source_walk(evs.drop_first(), failure, ty, w);
                (r, n + 1)
            },
        }
    }
}

/// The values of parameter `k` of `stride` parameters: every `stride`-th value
/// from value `k` on.
pub open spec fn column_words(words: Seq<Seq<char>>, stride: nat, k: nat) -> Seq<Seq<char>> {
    Seq::new(words.len() / stride, |i: int| words[i * stride + k])
}

/// The values `ws` as integers, or the message for the first that is none.
pub open spec fn ints_of(ws: Seq<Seq<char>>) -> Result<Seq<i32>, Seq<char>>
    decreases ws.len(),
{
    if ws.len() == 0 {
        Ok(Seq::empty())
    } else {
        match parse_i32(ws[0]) {
            None => Err("Can not parse int \""@ + ws[0] + "\""@),
            Some(v) => match ints_of(ws.drop_first()) {
                Ok(rest) => Ok(seq![v] + rest),
                Err(m) => Err(m),
            },
        }
    }
}

/// Parameter `k` with its values: as numbers where its type is `int`, else as
/// text.
pub open spec fn column_of(words: Seq<Seq<char>>, params: Seq<(Seq<char>, Seq<char>)>, k: nat) -> Result<
    SpecColumn,
    Seq<char>,
> {
    let col = column_words(words, params.len(), k);
    if params[k as int].1 == "int"@ {
        match ints_of(col) {
            Ok(v) => Ok(SpecColumn::Int(params[k as int].0, v)),
            Err(m) => Err(m),
        }
    } else {
        Ok(SpecColumn::Float(params[k as int].0, col))
    }
}

/// The parameters from `k` on with their values, or the message of the first
/// value that is no number where one is asked for.
pub open spec fn columns_from(words: Seq<Seq<char>>, params: Seq<(Seq<char>, Seq<char>)>, k: nat) -> Result<
    Seq<SpecColumn>,
    Seq<char>,
>
    decreases params.len() - k,
{
    if k >= params.len() {
        Ok(Seq::empty())
    } else {
        match column_of(words, params, k) {
            Err(m) => Err(m),
            Ok(c) => match columns_from(words, params, k + 1) {
                Ok(rest) => Ok(seq![c] + rest),
                Err(m) => Err(m),
            },
        }
    }
}

/// The message for values that do not fill the parameters evenly.
pub open spec fn fit_message(ty: Seq<char>) -> Seq<char> {
    "Values of source \""@ + ty + "\" do not fit its params"@
}

/// The parameters of the source of type `ty` with their values: the values
/// are taken in rows of one value per parameter.
pub open spec fn source_columns(words: Seq<Seq<char>>, params: Seq<(Seq<char>, Seq<char>)>, ty: Seq<char>) -> Result<
    Seq<SpecColumn>,
    Seq<char>,
> {
    if params.len() == 0 || words.len() % params.len() != 0 {
        Err(fit_message(ty))
    } else {
        columns_from(words, params, 0)
    }
}

/// Reading the content of a `<source>` of type `ty` after its start tag: its
/// parameters with their values, or the message of the first error, and how
/// many events are read.
pub open spec fn source_content_run(evs: Seq<Event>, failure: Option<Seq<char>>, ty: Seq<char>) -> (
    Result<Seq<SpecColumn>, Seq<char>>,
    nat,
) {
    let start = SourceWalk { depth: 0, in_array: false, words: Seq::empty(), params: Seq::empty() };
    let (r, n) = source_walk(evs, failure, ty, start);
    match r {
        Err(m) => (Err(m), n),
        Ok(w) => (source_columns(w.words, w.params, ty), n),
    }
}


/// Texts as sequences of characters.
pub open spec fn texts_view(v: Seq<String>) -> Seq<Seq<char>> {
    v.map_values(|x: String| x@)
}

/// Parameters as pairs of name and type.
pub open spec fn params_view(v: Seq<(String, String)>) -> Seq<(Seq<char>, Seq<char>)> {
    v.map_values(|p: (String, String)| (p.0@, p.1@))
}

/// Columns as mathematical values.
pub open spec fn columns_view(v: Seq<SourceColumn>) -> Seq<SpecColumn> {
    v.map_values(|c: SourceColumn| c@)
}

/// `done` followed by the numbers of a parse that succeeds; a failure stays.
pub open spec fn after_ints(done: Seq<i32>, r: Result<Seq<i32>, Seq<char>>) -> Result<Seq<i32>, Seq<char>> {
    match r {
        Ok(rest) => Ok(done + rest),
        Err(m) => Err(m),
    }
}

/// `done` followed by the columns of a read that succeeds; a failure stays.
pub open spec fn after_columns(done: Seq<SpecColumn>, r: Result<Seq<SpecColumn>, Seq<char>>) -> Result<
    Seq<SpecColumn>,
    Seq<char>,
> {
    match r {
        Ok(rest) => Ok(done + rest),
        Err(m) => Err(m),
    }
}

/// Appends to `words` the pieces of `t` between white space.
fn append_fields(words: &mut Vec<String>, t: &str)
    ensures
        texts_view(final(words)@) == texts_view(old(words)@) + fields(t@),
{
    let v = chars_of(t);
    let spans = split_fields(&v);
    let ghost fs = fields(v@);
    let ghost start = texts_view(words@);
    let mut k: usize = 0;
    while k < spans.len()
        invariant
            v@ == t@,
            fs == fields(v@),
            spans@.len() == fs.len(),
            forall|j: int|
                #![trigger spans@[j]]
                0 <= j < spans@.len() ==> spans@[j].0 <= spans@[j].1 <= v@.len() && v@.subrange(
                    spans@[j].0 as int,
                    spans@[j].1 as int,
                ) == fs[j],
            k <= spans@.len(),
            texts_view(words@) == start + fs.take(k as int),
        decreases spans@.len() - k,
    {
        let (a, b) = spans[k];
        let w = string_of(&v, a, b);
        let ghost before = words@;
        words.push(w);
        assert(texts_view(words@) =~= texts_view(before).push(w@));
        assert(fs.take(k + 1) =~= fs.take(k as int).push(fs[k as int]));
        k = k + 1;
    }
    assert(fs.take(fs.len() as int) =~= fs);
}

/// The values of one column as numbers.
fn ints_of_column(words: &Vec<String>, stride: usize, k: usize) -> (r: Result<Vec<i32>, String>)
    requires
        0 < stride,
        k < stride,
        words@.len() % (stride as nat) == 0,
    ensures
        match ints_of(column_words(texts_view(words@), stride as nat, k as nat)) {
            Ok(v) => r matches Ok(x) && x@ == v,
            Err(m) => r matches Err(e) && e@ == m,
        },
{
    let ghost ws = texts_view(words@);
    let ghost col = column_words(ws, stride as nat, k as nat);
    let rows = words.len() / stride;
    let mut vals: Vec<i32> = Vec::new();
    let mut i: usize = 0;
    assert(col.skip(0) =~= col);
    assert(vals@ + Seq::<i32>::empty() =~= vals@);
    while i < rows
        invariant
            0 < stride,
            k < stride,
            rows == words@.len() / (stride as nat),
            ws == texts_view(words@),
            col == column_words(ws, stride as nat, k as nat),
            col.len() == rows,
            i <= rows,
            ints_of(col) == after_ints(vals@, ints_of(col.skip(i as int))),
        decreases rows - i,
    {
        assert(i * stride + k < words@.len()) by (nonlinear_arith)
            requires
                i < rows,
                rows == words@.len() / (stride as nat),
                k < stride,
                0 < stride,
        {
            assert(i + 1 <= rows);
            assert((i + 1) * stride <= rows * stride);
            assert(rows * stride <= words@.len());
        }
        assert(words@.len() == words.len());
        assert(i * stride <= usize::MAX);
        let idx = i * stride + k;
        assert(col[i as int] == ws[idx as int]);
        let v = chars_of(words[idx].as_str());
        assert(v@.subrange(0, v@.len() as int) =~= v@);
        let ghost rest = col.skip(i as int);
        assert(rest[0] == col[i as int]);
        assert(rest.drop_first() =~= col.skip(i + 1));
        match parse_i32_chars(&v, 0, v.len()) {
            None => {
                return Err(concat3("Can not parse int \"", words[idx].as_str(), "\""));
            },
            Some(x) => {
                let ghost old_v = vals@;
                vals.push(x);
                proof {
                    match ints_of(col.skip(i + 1)) {
                        Ok(more) => {
                            assert(old_v + (seq![x] + more) =~= vals@ + more);
                        },
                        Err(_) => {},
                    }
                }
            },
        }
        i = i + 1;
    }
    assert(col.skip(rows as int) =~= Seq::<Seq<char>>::empty());
    assert(vals@ + Seq::<i32>::empty() =~= vals@);
    Ok(vals)
}

/// The values of one column as text.
fn texts_of_column(words: &Vec<String>, stride: usize, k: usize) -> (r: Vec<String>)
    requires
        0 < stride,
        k < stride,
        words@.len() % (stride as nat) == 0,
    ensures
        texts_view(r@) == column_words(texts_view(words@), stride as nat, k as nat),
{
    let ghost ws = texts_view(words@);
    let ghost col = column_words(ws, stride as nat, k as nat);
    let rows = words.len() / stride;
    let mut out: Vec<String> = Vec::new();
    let mut i: usize = 0;
    while i < rows
        invariant
            0 < stride,
            k < stride,
            rows == words@.len() / (stride as nat),
            ws == texts_view(words@),
            col == column_words(ws, stride as nat, k as nat),
            col.len() == rows,
            i <= rows,
            texts_view(out@) == col.take(i as int),
        decreases rows - i,
    {
        assert(i * stride + k < words@.len()) by (nonlinear_arith)
            requires
                i < rows,
                rows == words@.len() / (stride as nat),
                k < stride,
                0 < stride,
        {
            assert(i + 1 <= rows);
            assert((i + 1) * stride <= rows * stride);
            assert(rows * stride <= words@.len());
        }
        assert(words@.len() == words.len());
        assert(i * stride <= usize::MAX);
        let idx = i * stride + k;
        let ghost before = out@;
        out.push(words[idx].clone());
        assert(texts_view(out@) =~= texts_view(before).push(ws[idx as int]));
        assert(col.take(i + 1) =~= col.take(i as int).push(col[i as int]));
        i = i + 1;
    }
    assert(col.take(rows as int) =~= col);
    out
}

/// The parameters of the source of type `ty` with their values.
fn columns_of(words: &Vec<String>, params: &Vec<(String, String)>, ty: &str) -> (r: Result<
    Vec<SourceColumn>,
    String,
>)
    ensures
        match source_columns(texts_view(words@), params_view(params@), ty@) {
            Ok(c) => r matches Ok(x) && columns_view(x@) == c,
            Err(m) => r matches Err(e) && e@ == m,
        },
{
    let ghost ws = texts_view(words@);
    let ghost ps = params_view(params@);
    let stride = params.len();
    if stride == 0 || words.len() % stride != 0 {
        return Err(concat3("Values of source \"", ty, "\" do not fit its params"));
    }
    let mut out: Vec<SourceColumn> = Vec::new();
    let mut k: usize = 0;
    assert(columns_view(out@) + Seq::<SpecColumn>::empty() =~= columns_view(out@));
    assert(columns_view(out@) =~= Seq::<SpecColumn>::empty());
    while k < stride
        invariant
            stride == params@.len(),
            stride > 0,
            words@.len() % (stride as nat) == 0,
            ws == texts_view(words@),
            ps == params_view(params@),
            k <= stride,
            columns_from(ws, ps, 0) == after_columns(columns_view(out@), columns_from(ws, ps, k as nat)),
        decreases stride - k,
    {
        let ghost before = columns_view(out@);
        let c = if str_eq(params[k].1.as_str(), "int") {
            match ints_of_column(words, stride, k) {
                Ok(v) => SourceColumn::Int(params[k].0.clone(), v),
                Err(m) => {
                    assert(column_of(ws, ps, k as nat) is Err);
                    return Err(m);
                },
            }
        } else {
            SourceColumn::Float(params[k].0.clone(), texts_of_column(words, stride, k))
        };
        assert(column_of(ws, ps, k as nat) == Ok::<SpecColumn, Seq<char>>(c@));
        out.push(c);
        assert(columns_view(out@) =~= before.push(c@));
        proof {
            match columns_from(ws, ps, (k + 1) as nat) {
                Ok(more) => {
                    assert(before + (seq![c@] + more) =~= columns_view(out@) + more);
                },
                Err(_) => {},
            }
        }
        k = k + 1;
    }
    assert(columns_view(out@) + Seq::<SpecColumn>::empty() =~= columns_view(out@));
    Ok(out)
}


/// The walk state held by the reader's variables.
pub open spec fn walk_of(depth: usize, in_array: bool, words: Seq<String>, params: Seq<(String, String)>) -> SourceWalk {
    SourceWalk { depth: depth as nat, in_array, words: texts_view(words), params: params_view(params) }
}

/// Reads the content of a `<source>` of type `source_type` whose start tag has
/// been read, up to its end tag: its parameters with their values.
pub fn read_source_content(parser: &mut Parser, source_type: &str) -> (r: Result<Vec<SourceColumn>, String>)
    ensures
        ({
            let (res, n) = source_content_run(old(parser).remaining(), old(parser).failure(), source_type@);
            &&& final(parser).remaining() == old(parser).remaining().skip(n as int)
            &&& final(parser).failure() == old(parser).failure()
            &&& match res {
                Ok(c) => r matches Ok(x) && columns_view(x@) == c,
                Err(m) => r matches Err(e) && e@ == m,
            }
        }),
{
    let ghost all = parser.remaining();
    let ghost f = parser.failure();
    let ghost ty = source_type@;
    let ghost start = SourceWalk { depth: 0, in_array: false, words: Seq::empty(), params: Seq::empty() };
    let ghost total = source_walk(all, f, ty, start);
    proof {
        parser.lemma_remaining_fits();
    }
    let mut depth: usize = 0;
    let mut in_array = false;
    let mut words: Vec<String> = Vec::new();
    let mut params: Vec<(String, String)> = Vec::new();
    assert(texts_view(words@) =~= Seq::<Seq<char>>::empty());
    assert(params_view(params@) =~= Seq::<(Seq<char>, Seq<char>)>::empty());
    loop
        invariant
            parser.failure() == f,
            all == old(parser).remaining(),
            f == old(parser).failure(),
            ty == source_type@,
            all.len() <= usize::MAX,
            total == source_walk(all, f, ty, start),
            start == (SourceWalk { depth: 0, in_array: false, words: Seq::empty(), params: Seq::empty() }),
            0 <= all.len() - parser.remaining().len(),
            parser.remaining() == all.skip(all.len() - parser.remaining().len()),
            depth <= all.len() - parser.remaining().len(),
            total.0 == source_walk(
                parser.remaining(),
                f,
                ty,
                walk_of(depth, in_array, words@, params@),
            ).0,
            total.1 == (all.len() - parser.remaining().len()) + source_walk(
                parser.remaining(),
                f,
                ty,
                walk_of(depth, in_array, words@, params@),
            ).1,
        decreases parser.remaining().len(),
    {
        let ghost cur = parser.remaining();
        let ghost consumed = all.len() - cur.len();
        let ghost w = SourceWalk {
            depth: depth as nat,
            in_array,
            words: texts_view(words@),
            params: params_view(params@),
        };
        let ev = match parser.next() {
            Ok(e) => e,
            Err(m) => {
                assert(parser.remaining() =~= all.skip(total.1 as int));
                return Err(m);
            },
        };
        assert(parser.remaining() =~= all.skip(consumed + 1));
        match ev {
            Event::StartElement { name, attributes } => {
                if str_eq(name.local_name.as_str(), "float_array") || str_eq(
                    name.local_name.as_str(),
                    "int_array",
                ) {
                    in_array = true;
                }
                if str_eq(name.local_name.as_str(), "param") {
                    let pn = match find_attribute(&attributes, "name") {
                        Some(x) => x,
                        None => {
                            assert(parser.remaining() =~= all.skip(total.1 as int));
                            return Err(concat3("Param of source \"", source_type, "\" needs name"));
                        },
                    };
                    let pt = match find_attribute(&attributes, "type") {
                        Some(x) => x,
                        None => String::from_str("float"),
                    };
                    let ghost before = params@;
                    params.push((pn, pt));
                    assert(params_view(params@) =~= params_view(before).push((pn@, pt@)));
                }
                depth = depth + 1;
            },
            Event::EndElement { name } => {
                if depth == 0 {
                    assert(parser.remaining() =~= all.skip(total.1 as int));
                    if str_eq(name.local_name.as_str(), "source") {
                        return columns_of(&words, &params, source_type);
                    } else {
                        return Err(concat3("Unexpected end tag \"", name.local_name.as_str(), "\""));
                    }
                }
                depth = depth - 1;
                in_array = false;
            },
            Event::Characters(t) => {
                if in_array {
                    append_fields(&mut words, t.as_str());
                }
            },
            _ => {},
        }
    }
}

} // verus!
