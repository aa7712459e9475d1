use vstd::prelude::*;
use vstd::string::*;

use crate::error::Error;
use crate::lexer::{
    is_word_char, lemma_lex_advances, lemma_skip_spaces, lemma_word_end, lex_at, lexeme_text, skip_spaces, word_end, Cursor,
    Lexeme, SpecLexeme,
};
use crate::text::{concat3, str_eq};

verus! {

/// The type that the values of a layer are written as.
#[derive(Clone, Copy, PartialEq, Eq, Structural, Debug)]
pub enum SemanticsSourceLayerType {
    Float,
    Int,
}

/// The parsed vertex semantics: the sources a vertex is made of, in order.
pub struct Semantics<'a> {
    pub sources: Vec<SemanticsSource<'a>>,
}

/// One source of the vertex semantics, such as `VERTEX(X:float,Y:float,Z:float)`.
pub struct SemanticsSource<'a> {
    pub name: &'a str,
    /// Written with `&` after the name: the source is taken by index.
    pub is_index: bool,
    pub layers: Vec<SemanticsSourceLayer<'a>>,
}

/// One layer of a source, such as `X:float`.
pub struct SemanticsSourceLayer<'a> {
    pub name: &'a str,
    pub layer_type: SemanticsSourceLayerType,
}

/// A layer as a mathematical value.
pub struct SpecLayer {
    pub name: Seq<char>,
    pub layer_type: SemanticsSourceLayerType,
}

/// A source as a mathematical value.
pub struct SpecSource {
    pub name: Seq<char>,
    pub is_index: bool,
    pub layers: Seq<SpecLayer>,
}

impl<'a> View for SemanticsSourceLayer<'a> {
    type V = SpecLayer;

    open spec fn view(&self) -> SpecLayer {
        SpecLayer { name: self.name@, layer_type: self.layer_type }
    }
}

impl<'a> View for SemanticsSource<'a> {
    type V = SpecSource;

    open spec fn view(&self) -> SpecSource {
        SpecSource {
            name: self.name@,
            is_index: self.is_index,
            layers: self.layers@.map_values(|l: SemanticsSourceLayer<'a>| l@),
        }
    }
}

impl<'a> View for Semantics<'a> {
    type V = Seq<SpecSource>;

    open spec fn view(&self) -> Seq<SpecSource> {
        self.sources@.map_values(|s: SemanticsSource<'a>| s@)
    }
}

/// A message that names the lexeme found where another was expected.
pub open spec fn found_message(prefix: Seq<char>, found: SpecLexeme) -> Seq<char> {
    prefix + lexeme_text(found) + " has been found"@
}

/// The type named by a lexeme: `float` or `integer`.
pub open spec fn layer_type_of(l: SpecLexeme) -> Option<SemanticsSourceLayerType> {
    match l {
        SpecLexeme::Word(w) => if w == "float"@ {
            Some(SemanticsSourceLayerType::Float)
        } else if w == "integer"@ {
            Some(SemanticsSourceLayerType::Int)
        } else {
            None
        },
        _ => None,
    }
}

/// What follows a layer: `,` and more layers, or `)`, with the position after it.
/// `Some(true)` means more layers follow.
pub open spec fn layer_separator(l: SpecLexeme) -> Option<bool> {
    match l {
        SpecLexeme::Comma => Some(true),
        SpecLexeme::Bracket(c) => if c == ')' {
            Some(false)
        } else {
            None
        },
        _ => None,
    }
}

/// One layer with what follows it, read from position `i`: the layer, whether
/// `,` (more layers) rather than `)` follows, and the position after that
/// separator; or the message of the first error.
pub open spec fn spec_layer_step(s: Seq<char>, i: int) -> Result<(SpecLayer, bool, int), Seq<char>> {
    match lex_at(s, i) {
        Err(m) => Err(m),
        Ok((SpecLexeme::Word(name), j)) => match lex_at(s, j) {
            Err(m) => Err(m),
            Ok((SpecLexeme::Colon, k)) => match lex_at(s, k) {
                Err(m) => Err(m),
                Ok((t, l)) => match layer_type_of(t) {
                    None => Err(found_message("Expected float or integer, but "@, t)),
                    Some(ty) => match lex_at(s, l) {
                        Err(m) => Err(m),
                        Ok((sep, p)) => match layer_separator(sep) {
                            None => Err(found_message("Expected ',' or ')', but "@, sep)),
                            Some(more) => Ok((SpecLayer { name, layer_type: ty }, more, p)),
                        },
                    },
                },
            },
            Ok((other, _)) => Err(
                found_message(
                    "Expected :<type> after "@ + name + " in full vertex semantics, bot "@,
                    other,
                ),
            ),
        },
        Ok((other, _)) => Err(found_message("Expected name of layer, but "@, other)),
    }
}

pub proof fn lemma_layer_step_advances(s: Seq<char>, i: int)
    requires
        0 <= i <= s.len(),
    ensures
        spec_layer_step(s, i) matches Ok((_, _, p)) ==> i < p <= s.len(),
{
    lemma_lex_advances(s, i);
    if let Ok((_, j)) = lex_at(s, i) {
        lemma_lex_advances(s, j);
        if let Ok((_, k)) = lex_at(s, j) {
            lemma_lex_advances(s, k);
            if let Ok((_, l)) = lex_at(s, k) {
                lemma_lex_advances(s, l);
            }
        }
    }
}

/// The layers of a source, read from position `i` (just after `(`) up to and
/// including the closing `)`, with the position after it; or the message of
/// the first error.
pub open spec fn spec_layers(s: Seq<char>, i: int) -> Result<(Seq<SpecLayer>, int), Seq<char>>
    decreases s.len() - i when 0 <= i <= s.len()
{
    match spec_layer_step(s, i) {
        Err(m) => Err(m),
        Ok((layer, more, p)) => if !more {
            Ok((seq![layer], p))
        } else {
            proof {
                lemma_layer_step_advances(s, i);
            }
            match spec_layers(s, p) {
                Err(m) => Err(m),
                Ok((rest, q)) => Ok((seq![layer] + rest, q)),
            }
        },
    }
}

/// The `(` that opens the layers of a source, after an optional `&`: whether
/// the `&` is there and the position after the `(`; or the message of the
/// first error.
pub open spec fn spec_source_head(s: Seq<char>, j: int) -> Result<(bool, int), Seq<char>> {
    match lex_at(s, j) {
        Err(m) => Err(m),
        Ok((l1, j1)) => {
            let is_index = l1 is Ampersand;
            let opening = if is_index {
                lex_at(s, j1)
            } else {
                Ok((l1, j1))
            };
            match opening {
                Err(m) => Err(m),
                Ok((b, k)) => if b == SpecLexeme::Bracket('(') {
                    Ok((is_index, k))
                } else {
                    Err(found_message("Expected (, but "@, b))
                },
            }
        },
    }
}

/// The sources of the semantics text read from position `i` to its end; or the
/// message of the first error.
pub open spec fn spec_sources(s: Seq<char>, i: int) -> Result<Seq<SpecSource>, Seq<char>>
    decreases s.len() - i when 0 <= i <= s.len()
{
    match lex_at(s, i) {
        Err(m) => Err(m),
        Ok((SpecLexeme::Eof, _)) => Ok(seq![]),
        Ok((SpecLexeme::Word(name), j)) => match spec_source_head(s, j) {
            Err(m) => Err(m),
            Ok((is_index, k)) => match spec_layers(s, k) {
                Err(m) => Err(m),
                Ok((layers, p)) => {
                    proof {
                        lemma_lex_advances(s, i);
                        lemma_source_head_advances(s, j);
                        lemma_layers_advance(s, k);
                        assert(i < j);
                        assert(j < k);
                        assert(k < p);
                    }
                    let source = SpecSource { name, is_index, layers };
                    match spec_sources(s, p) {
                        Err(m) => Err(m),
                        Ok(rest) => Ok(seq![source] + rest),
                    }
                },
            },
        },
        Ok((other, _)) => Err(found_message("Expected name of source, but "@, other)),
    }
}

/// What a semantics text parses to: its sources, or the message of its first error.
pub open spec fn semantics_of(text: Seq<char>) -> Result<Seq<SpecSource>, Seq<char>> {
    spec_sources(text, 0)
}

/// A source whose layers fail makes the whole text fail with the same message.
proof fn lemma_sources_layers_fail(s: Seq<char>, i: int, j: int, k: int, name: Seq<char>, b: bool)
    requires
        0 <= i <= s.len(),
        lex_at(s, i) == Ok::<(SpecLexeme, int), Seq<char>>((SpecLexeme::Word(name), j)),
        spec_source_head(s, j) == Ok::<(bool, int), Seq<char>>((b, k)),
        spec_layers(s, k) is Err,
    ensures
        spec_sources(s, i) == Err::<Seq<SpecSource>, Seq<char>>(spec_layers(s, k)->Err_0),
{
}

pub proof fn lemma_source_head_advances(s: Seq<char>, j: int)
    ensures
        spec_source_head(s, j) matches Ok((_, k)) ==> j < k && (0 <= j <= s.len() ==> k <= s.len()),
{
    lemma_lex_advances(s, j);
    if let Ok((l1, j1)) = lex_at(s, j) {
        lemma_lex_advances(s, j1);
    }
}

pub proof fn lemma_layers_advance(s: Seq<char>, i: int)
    requires
        0 <= i <= s.len(),
    ensures
        spec_layers(s, i) matches Ok((layers, p)) ==> i < p <= s.len() && layers.len() > 0,
    decreases s.len() - i,
{
    lemma_layer_step_advances(s, i);
    if let Ok((_, more, p)) = spec_layer_step(s, i) {
        if more {
            lemma_layers_advance(s, p);
        }
    }
}

proof fn lemma_word_nonempty(s: Seq<char>, i: int)
    requires
        0 <= i,
    ensures
        lex_at(s, i) matches Ok((SpecLexeme::Word(w), _)) ==> w.len() > 0,
{
    lemma_skip_spaces(s, i);
    let k = skip_spaces(s, i);
    if k < s.len() && is_word_char(s[k]) {
        lemma_word_end(s, k + 1);
    }
}

/// A source as the grammar accepts it: a name of at least one character and
/// at least one layer, each with a name of at least one character.
pub open spec fn source_well_formed(src: SpecSource) -> bool {
    &&& src.name.len() > 0
    &&& src.layers.len() > 0
    &&& forall|l: int| 0 <= l < src.layers.len() ==> (#[trigger] src.layers[l]).name.len() > 0
}

proof fn lemma_layer_names(s: Seq<char>, i: int)
    requires
        0 <= i <= s.len(),
    ensures
        spec_layers(s, i) matches Ok((ls, _)) ==> ls.len() > 0 && forall|l: int|
            0 <= l < ls.len() ==> (#[trigger] ls[l]).name.len() > 0,
    decreases s.len() - i,
{
    lemma_word_nonempty(s, i);
    lemma_layer_step_advances(s, i);
    if let Ok((layer, more, p)) = spec_layer_step(s, i) {
        if more {
            lemma_layer_names(s, p);
            if let Ok((rest, q)) = spec_layers(s, p) {
                let ls = seq![layer] + rest;
                assert forall|l: int| 0 <= l < ls.len() implies (#[trigger] ls[l]).name.len() > 0 by {
                    if l > 0 {
                        assert(ls[l] == rest[l - 1]);
                    }
                }
            }
        }
    }
}

proof fn lemma_sources_well_formed(s: Seq<char>, i: int)
    requires
        0 <= i <= s.len(),
    ensures
        spec_sources(s, i) matches Ok(v) ==> forall|j: int|
            0 <= j < v.len() ==> source_well_formed(#[trigger] v[j]),
    decreases s.len() - i,
{
    lemma_word_nonempty(s, i);
    lemma_lex_advances(s, i);
    if let Ok((SpecLexeme::Word(name), j)) = lex_at(s, i) {
        lemma_source_head_advances(s, j);
        if let Ok((is_index, k)) = spec_source_head(s, j) {
            lemma_layers_advance(s, k);
            lemma_layer_names(s, k);
            if let Ok((layers, p)) = spec_layers(s, k) {
                lemma_sources_well_formed(s, p);
                if let Ok(rest) = spec_sources(s, p) {
                    let v = seq![SpecSource { name, is_index, layers }] + rest;
                    assert forall|x: int| 0 <= x < v.len() implies source_well_formed(#[trigger] v[x]) by {
                        if x > 0 {
                            assert(v[x] == rest[x - 1]);
                        }
                    }
                }
            }
        }
    }
}

/// Every source of a parsed semantics text has a name and at least one layer,
/// and every layer has a name.
pub proof fn lemma_semantics_well_formed(text: Seq<char>)
    ensures
        semantics_of(text) matches Ok(v) ==> forall|j: int|
            0 <= j < v.len() ==> source_well_formed(#[trigger] v[j]),
{
    lemma_sources_well_formed(text, 0);
}

/// A name as the lexer reads it: one or more word characters.
pub open spec fn is_word(w: Seq<char>) -> bool {
    w.len() > 0 && forall|k: int| 0 <= k < w.len() ==> is_word_char(#[trigger] w[k])
}

/// The word that names a layer type.
pub open spec fn type_word(t: SemanticsSourceLayerType) -> Seq<char> {
    match t {
        SemanticsSourceLayerType::Float => "float"@,
        SemanticsSourceLayerType::Int => "integer"@,
    }
}

/// How a layer is written: its name, `:` and its type.
pub open spec fn layer_text(l: SpecLayer) -> Seq<char> {
    l.name + seq![':'] + type_word(l.layer_type)
}

/// How the layers of a source are written after its `(`: separated by `,`
/// and closed by `)`.
pub open spec fn layers_text(ls: Seq<SpecLayer>) -> Seq<char>
    decreases ls.len(),
{
    if ls.len() == 0 {
        seq![')']
    } else if ls.len() == 1 {
        layer_text(ls[0]) + seq![')']
    } else {
        layer_text(ls[0]) + seq![','] + layers_text(ls.drop_first())
    }
}

/// How a source is written: its name, `&` where it is taken by index, `(`
/// and its layers.
pub open spec fn source_text(src: SpecSource) -> Seq<char> {
    src.name + (if src.is_index {
        seq!['&']
    } else {
        Seq::<char>::empty()
    }) + seq!['('] + layers_text(src.layers)
}

/// How sources are written as a semantics text: one after another, separated
/// by a space.
pub open spec fn semantics_text(v: Seq<SpecSource>) -> Seq<char>
    decreases v.len(),
{
    if v.len() == 0 {
        Seq::empty()
    } else if v.len() == 1 {
        source_text(v[0])
    } else {
        source_text(v[0]) + seq![' '] + semantics_text(v.drop_first())
    }
}

/// Sources that can be written as text and read back: every name is a word
/// and every source has a layer.
pub open spec fn writable(v: Seq<SpecSource>) -> bool {
    forall|j: int|
        0 <= j < v.len() ==> {
            &&& is_word((#[trigger] v[j]).name)
            &&& v[j].layers.len() > 0
            &&& forall|l: int| 0 <= l < v[j].layers.len() ==> is_word((#[trigger] v[j].layers[l]).name)
        }
}

/// `t` stands in `s` from position `i` on.
spec fn stands_at(s: Seq<char>, i: int, t: Seq<char>) -> bool {
    0 <= i && i + t.len() <= s.len() && s.subrange(i, i + t.len()) == t
}

proof fn lemma_stands_split(s: Seq<char>, i: int, a: Seq<char>, b: Seq<char>)
    requires
        stands_at(s, i, a + b),
    ensures
        stands_at(s, i, a),
        stands_at(s, i + a.len(), b),
{
    let whole = s.subrange(i, i + (a + b).len());
    assert forall|k: int| 0 <= k < a.len() implies s.subrange(i, i + a.len())[k] == a[k] by {
        assert(whole[k] == (a + b)[k]);
    }
    assert(s.subrange(i, i + a.len()) =~= a);
    assert forall|k: int| 0 <= k < b.len() implies s.subrange(i + a.len(), i + a.len() + b.len())[k]
        == b[k] by {
        assert(whole[a.len() + k] == (a + b)[a.len() + k]);
    }
    assert(s.subrange(i + a.len(), i + a.len() + b.len()) =~= b);
}

proof fn lemma_stands_char(s: Seq<char>, i: int, t: Seq<char>, k: int)
    requires
        stands_at(s, i, t),
        0 <= k < t.len(),
    ensures
        s[i + k] == t[k],
{
    assert(s.subrange(i, i + t.len())[k] == s[i + k]);
}

proof fn lemma_word_end_at(s: Seq<char>, i: int, e: int)
    requires
        0 <= i <= e <= s.len(),
        forall|k: int| i <= k < e ==> is_word_char(#[trigger] s[k]),
        e == s.len() || !is_word_char(s[e]),
    ensures
        word_end(s, i) == e,
    decreases e - i,
{
    if i < e {
        lemma_word_end_at(s, i + 1, e);
    }
}

/// A word followed by a character that is no word character is read whole.
proof fn lemma_lex_word(s: Seq<char>, i: int, w: Seq<char>)
    requires
        is_word(w),
        stands_at(s, i, w),
        i + w.len() == s.len() || !is_word_char(s[i + w.len()]),
    ensures
        lex_at(s, i) == Ok::<(SpecLexeme, int), Seq<char>>((SpecLexeme::Word(w), i + w.len())),
{
    assert forall|k: int| i <= k < i + w.len() implies is_word_char(#[trigger] s[k]) by {
        lemma_stands_char(s, i, w, k - i);
    }
    lemma_stands_char(s, i, w, 0);
    lemma_word_end_at(s, i, i + w.len());
}

/// A punctuation character is read as one lexeme.
proof fn lemma_lex_punct(s: Seq<char>, i: int)
    requires
        0 <= i < s.len(),
        s[i] == '&' || s[i] == '(' || s[i] == ')' || s[i] == ':' || s[i] == ',',
    ensures
        lex_at(s, i) == Ok::<(SpecLexeme, int), Seq<char>>(
            (
                if s[i] == '&' {
                    SpecLexeme::Ampersand
                } else if s[i] == ':' {
                    SpecLexeme::Colon
                } else if s[i] == ',' {
                    SpecLexeme::Comma
                } else {
                    SpecLexeme::Bracket(s[i])
                },
                i + 1,
            ),
        ),
{
}

proof fn lemma_type_words()
    ensures
        is_word("float"@),
        is_word("integer"@),
        "float"@ != "integer"@,
{
    reveal_strlit("float");
    reveal_strlit("integer");
    assert(is_word("float"@));
    assert(is_word("integer"@));
}

proof fn lemma_layers_written(s: Seq<char>, i: int, ls: Seq<SpecLayer>)
    requires
        ls.len() > 0,
        forall|l: int| 0 <= l < ls.len() ==> is_word((#[trigger] ls[l]).name),
        stands_at(s, i, layers_text(ls)),
    ensures
        spec_layers(s, i) == Ok::<(Seq<SpecLayer>, int), Seq<char>>((ls, i + layers_text(ls).len())),
    decreases ls.len(),
{
    lemma_type_words();
    let l = ls[0];
    assert(is_word(l.name));
    let ty = type_word(l.layer_type);
    let sep = if ls.len() == 1 {
        seq![')']
    } else {
        seq![',']
    };
    let tail = if ls.len() == 1 {
        Seq::<char>::empty()
    } else {
        layers_text(ls.drop_first())
    };
    assert(layers_text(ls) =~= l.name + seq![':'] + ty + sep + tail);
    lemma_stands_split(s, i, l.name + seq![':'] + ty + sep, tail);
    lemma_stands_split(s, i, l.name + seq![':'] + ty, sep);
    lemma_stands_split(s, i, l.name + seq![':'], ty);
    lemma_stands_split(s, i, l.name, seq![':']);
    let c = i + l.name.len();
    let t = c + 1;
    let p0 = t + ty.len();
    lemma_stands_char(s, c, seq![':'], 0);
    lemma_stands_char(s, p0, sep, 0);
    lemma_lex_word(s, i, l.name);
    lemma_lex_punct(s, c);
    lemma_lex_word(s, t, ty);
    lemma_lex_punct(s, p0);
    assert(layer_type_of(SpecLexeme::Word(ty)) == Some(l.layer_type));
    assert(spec_layer_step(s, i) == Ok::<(SpecLayer, bool, int), Seq<char>>(
        (SpecLayer { name: l.name, layer_type: l.layer_type }, ls.len() > 1, p0 + 1),
    ));
    if ls.len() == 1 {
        assert(seq![l] =~= ls);
    } else {
        let rest = ls.drop_first();
        assert forall|x: int| 0 <= x < rest.len() implies is_word((#[trigger] rest[x]).name) by {
            assert(rest[x] == ls[x + 1]);
        }
        lemma_layers_written(s, p0 + 1, rest);
        assert(seq![l] + rest =~= ls);
    }
}

proof fn lemma_sources_written(s: Seq<char>, i: int, v: Seq<SpecSource>)
    requires
        writable(v),
        0 <= i <= s.len(),
        s.subrange(i, s.len() as int) == semantics_text(v),
    ensures
        spec_sources(s, i) == Ok::<Seq<SpecSource>, Seq<char>>(v),
    decreases v.len(),
{
    if v.len() == 0 {
        assert(v =~= seq![]);
    } else {
        let src = v[0];
        let mark = if src.is_index {
            seq!['&']
        } else {
            Seq::<char>::empty()
        };
        let tail = if v.len() == 1 {
            Seq::<char>::empty()
        } else {
            seq![' '] + semantics_text(v.drop_first())
        };
        assert(semantics_text(v) =~= src.name + mark + seq!['('] + layers_text(src.layers) + tail);
        assert(stands_at(s, i, semantics_text(v)));
        lemma_stands_split(s, i, src.name + mark + seq!['('] + layers_text(src.layers), tail);
        lemma_stands_split(s, i, src.name + mark + seq!['('], layers_text(src.layers));
        lemma_stands_split(s, i, src.name + mark, seq!['(']);
        lemma_stands_split(s, i, src.name, mark);
        let j = i + src.name.len();
        let k = j + mark.len() + 1;
        lemma_stands_char(s, j + mark.len(), seq!['('], 0);
        if src.is_index {
            lemma_stands_char(s, j, mark, 0);
            lemma_lex_punct(s, j);
        }
        lemma_lex_word(s, i, src.name);
        lemma_lex_punct(s, j + mark.len());
        assert(spec_source_head(s, j) == Ok::<(bool, int), Seq<char>>((src.is_index, k)));
        lemma_layers_written(s, k, src.layers);
        let p = k + layers_text(src.layers).len();
        if v.len() == 1 {
            assert(p == s.len());
            assert(spec_sources(s, p) == Ok::<Seq<SpecSource>, Seq<char>>(seq![]));
            assert(seq![SpecSource { name: src.name, is_index: src.is_index, layers: src.layers }] =~= v);
        } else {
            let rest = v.drop_first();
            lemma_stands_split(s, p, seq![' '], semantics_text(rest));
            lemma_stands_char(s, p, seq![' '], 0);
            assert(s.subrange(p + 1, s.len() as int) =~= semantics_text(rest));
            assert(writable(rest)) by {
                assert forall|x: int| 0 <= x < rest.len() implies #[trigger] rest[x] == v[x + 1] by {}
            }
            lemma_sources_written(s, p + 1, rest);
            assert(lex_at(s, p) == lex_at(s, p + 1));
            assert(spec_sources(s, p) == spec_sources(s, p + 1));
            assert(seq![SpecSource { name: src.name, is_index: src.is_index, layers: src.layers }] + rest =~= v);
        }
    }
}

/// Writing sources as a semantics text and parsing that text gives the same
/// sources back, in the same order, with the same names, index marks, layers
/// and layer types.
pub proof fn lemma_write_then_parse(v: Seq<SpecSource>)
    requires
        writable(v),
    ensures
        semantics_of(semantics_text(v)) == Ok::<Seq<SpecSource>, Seq<char>>(v),
{
    let s = semantics_text(v);
    assert(s.subrange(0, s.len() as int) =~= s);
    lemma_sources_written(s, 0, v);
}

/// `acc` followed by the sources of a parse that succeeds; a failure stays.
pub open spec fn after_sources(
    acc: Seq<SpecSource>,
    r: Result<Seq<SpecSource>, Seq<char>>,
) -> Result<Seq<SpecSource>, Seq<char>> {
    match r {
        Ok(rest) => Ok(acc + rest),
        Err(m) => Err(m),
    }
}

/// `acc` followed by the layers of a parse that succeeds; a failure stays.
pub open spec fn after_layers(
    acc: Seq<SpecLayer>,
    r: Result<(Seq<SpecLayer>, int), Seq<char>>,
) -> Result<(Seq<SpecLayer>, int), Seq<char>> {
    match r {
        Ok((rest, q)) => Ok((acc + rest, q)),
        Err(m) => Err(m),
    }
}

fn found(prefix: &str, l: &Lexeme) -> (r: String)
    ensures
        r@ == found_message(prefix@, l@),
{
    let p = l.print();
    concat3(prefix, p.as_str(), " has been found")
}

/// Reads one layer and the `,` or `)` after it.
fn read_layer<'a>(cursor: &mut Cursor<'a>) -> (r: Result<(SemanticsSourceLayer<'a>, bool), Error>)
    requires
        old(cursor).wf(),
    ensures
        final(cursor).wf(),
        final(cursor).text == old(cursor).text,
        match spec_layer_step(old(cursor).text@, old(cursor).pos as int) {
            Ok((l, more, p)) => r matches Ok((x, b)) && x@ == l && b == more && final(cursor).pos
                == p,
            Err(m) => r matches Err(Error::SemanticsParse(e)) && e@ == m,
        },
{
    let layer_name = match cursor.next() {
        Ok(Lexeme::String(w)) => w,
        Ok(_) => {
            let m = found("Expected name of layer, but ", &cursor.lex);
            return Err(Error::SemanticsParse(m));
        },
        Err(e) => return Err(e),
    };
    match cursor.next() {
        Ok(Lexeme::Colon) => {},
        Ok(_) => {
            let prefix = concat3(
                "Expected :<type> after ",
                layer_name,
                " in full vertex semantics, bot ",
            );
            let m = found(prefix.as_str(), &cursor.lex);
            return Err(Error::SemanticsParse(m));
        },
        Err(e) => return Err(e),
    }
    let layer_type = match cursor.next() {
        Ok(Lexeme::String(type_str)) => {
            if str_eq(type_str, "float") {
                SemanticsSourceLayerType::Float
            } else if str_eq(type_str, "integer") {
                SemanticsSourceLayerType::Int
            } else {
                let m = found("Expected float or integer, but ", &cursor.lex);
                return Err(Error::SemanticsParse(m));
            }
        },
        Ok(_) => {
            let m = found("Expected float or integer, but ", &cursor.lex);
            return Err(Error::SemanticsParse(m));
        },
        Err(e) => return Err(e),
    };
    let more = match cursor.next() {
        Ok(Lexeme::Comma) => true,
        Ok(Lexeme::Bracket(')')) => false,
        Ok(_) => {
            let m = found("Expected ',' or ')', but ", &cursor.lex);
            return Err(Error::SemanticsParse(m));
        },
        Err(e) => return Err(e),
    };
    Ok((SemanticsSourceLayer { name: layer_name, layer_type }, more))
}

/// Reads the optional `&` and the `(` after the name of a source.
fn read_source_head<'a>(cursor: &mut Cursor<'a>) -> (r: Result<bool, Error>)
    requires
        old(cursor).wf(),
    ensures
        final(cursor).wf(),
        final(cursor).text == old(cursor).text,
        match spec_source_head(old(cursor).text@, old(cursor).pos as int) {
            Ok((b, k)) => r == Ok::<bool, Error>(b) && final(cursor).pos == k,
            Err(m) => r matches Err(Error::SemanticsParse(e)) && e@ == m,
        },
{
    let is_index = match cursor.next() {
        Ok(Lexeme::Ampersand) => {
            match cursor.next() {
                Ok(_) => {},
                Err(e) => return Err(e),
            }
            true
        },
        Ok(_) => false,
        Err(e) => return Err(e),
    };
    let opened = match cursor.lex {
        Lexeme::Bracket(c) => c == '(',
        _ => false,
    };
    if !opened {
        let m = found("Expected (, but ", &cursor.lex);
        return Err(Error::SemanticsParse(m));
    }
    Ok(is_index)
}

impl<'a> Semantics<'a> {
    /// Parses a vertex semantics text such as
    /// `VERTEX(X:float,Y:float,Z:float) NORMAL&(X:float,Y:float,Z:float)`.
    pub fn parse(semantics_text: &'a String) -> (r: Result<Semantics<'a>, Error>)
        ensures
            match semantics_of(semantics_text@) {
                Ok(v) => r matches Ok(sem) && sem@ == v,
                Err(m) => r matches Err(Error::SemanticsParse(e)) && e@ == m,
            },
    {
        let ghost s = semantics_text@;
        let mut cursor = Cursor::new(semantics_text.as_str());
        let mut sources: Vec<SemanticsSource<'a>> = Vec::new();

        loop
            invariant
                cursor.wf(),
                cursor.text@ == s,
                s == semantics_text@,
                semantics_of(s) == after_sources(
                    sources@.map_values(|x: SemanticsSource<'a>| x@),
                    spec_sources(s, cursor.pos as int),
                ),
            ensures
                semantics_of(semantics_text@) == Ok::<Seq<SpecSource>, Seq<char>>(
                    sources@.map_values(|x: SemanticsSource<'a>| x@),
                ),
            decreases s.len() - cursor.pos,
        {
            let ghost i = cursor.pos as int;
            let ghost acc = sources@.map_values(|x: SemanticsSource<'a>| x@);
            proof {
                lemma_lex_advances(s, i);
            }
            let source_name = match cursor.next() {
                Ok(Lexeme::EOF) => {
                    assert(spec_sources(s, i) == Ok::<Seq<SpecSource>, Seq<char>>(
                        Seq::<SpecSource>::empty(),
                    ));
                    assert(acc + Seq::<SpecSource>::empty() =~= acc);
                    assert(semantics_of(s) == Ok::<Seq<SpecSource>, Seq<char>>(acc));
                    break ;
                },
                Ok(Lexeme::String(w)) => w,
                Ok(_) => {
                    let m = found("Expected name of source, but ", &cursor.lex);
                    assert(spec_sources(s, i) == Err::<Seq<SpecSource>, Seq<char>>(m@));
                    assert(semantics_of(s) == Err::<Seq<SpecSource>, Seq<char>>(m@));
                    return Err(Error::SemanticsParse(m));
                },
                Err(e) => {
                    assert(spec_sources(s, i) == Err::<Seq<SpecSource>, Seq<char>>(
                        lex_at(s, i)->Err_0,
                    ));
                    assert(semantics_of(s) == Err::<Seq<SpecSource>, Seq<char>>(
                        lex_at(s, i)->Err_0,
                    ));
                    return Err(e);
                },
            };
            let ghost j = cursor.pos as int;
            proof {
                lemma_source_head_advances(s, j);
            }
            let is_index = match read_source_head(&mut cursor) {
                Ok(b) => b,
                Err(e) => {
                    assert(spec_sources(s, i) == Err::<Seq<SpecSource>, Seq<char>>(
                        spec_source_head(s, j)->Err_0,
                    ));
                    assert(semantics_of(s) == Err::<Seq<SpecSource>, Seq<char>>(
                        spec_source_head(s, j)->Err_0,
                    ));
                    return Err(e);
                },
            };
            let ghost k = cursor.pos as int;
            let mut layers: Vec<SemanticsSourceLayer<'a>> = Vec::new();
            assert(layers@.map_values(|x: SemanticsSourceLayer<'a>| x@) + Seq::<SpecLayer>::empty()
                =~= Seq::<SpecLayer>::empty());
            loop
                invariant_except_break
                    spec_layers(s, k) == after_layers(
                        layers@.map_values(|x: SemanticsSourceLayer<'a>| x@),
                        spec_layers(s, cursor.pos as int),
                    ),
                invariant
                    cursor.wf(),
                    cursor.text@ == s,
                    s == semantics_text@,
                    0 <= i <= s.len(),
                    0 <= k <= cursor.pos,
                    lex_at(s, i) == Ok::<(SpecLexeme, int), Seq<char>>(
                        (SpecLexeme::Word(source_name@), j),
                    ),
                    spec_source_head(s, j) == Ok::<(bool, int), Seq<char>>((is_index, k)),
                    semantics_of(s) == after_sources(acc, spec_sources(s, i)),
                    acc == sources@.map_values(|x: SemanticsSource<'a>| x@),
                ensures
                    spec_layers(s, k) == Ok::<(Seq<SpecLayer>, int), Seq<char>>(
                        (layers@.map_values(|x: SemanticsSourceLayer<'a>| x@), cursor.pos as int),
                    ),
                decreases s.len() - cursor.pos,
            {
                let ghost li = cursor.pos as int;
                let ghost lacc = layers@.map_values(|x: SemanticsSourceLayer<'a>| x@);
                proof {
                    lemma_layer_step_advances(s, li);
                }
                let (layer, more) = match read_layer(&mut cursor) {
                    Ok(x) => x,
                    Err(e) => {
                        assert(spec_layers(s, li) is Err);
                        assert(spec_layers(s, k) is Err);
                        proof {
                            lemma_sources_layers_fail(s, i, j, k, source_name@, is_index);
                        }
                        assert(semantics_of(s) == Err::<Seq<SpecSource>, Seq<char>>(
                            spec_layers(s, k)->Err_0,
                        ));
                        return Err(e);
                    },
                };
                layers.push(layer);
                assert(layers@.map_values(|x: SemanticsSourceLayer<'a>| x@) =~= lacc + seq![layer@]);
                if !more {
                    break ;
                }
                assert forall|rest: Seq<SpecLayer>|
                    #![trigger lacc + (seq![layer@] + rest)]
                    lacc + (seq![layer@] + rest) == lacc + seq![layer@] + rest by {
                    assert(lacc + (seq![layer@] + rest) =~= lacc + seq![layer@] + rest);
                }
            }
            proof {
                lemma_layers_advance(s, k);
            }
            let source = SemanticsSource { name: source_name, is_index, layers };
            sources.push(source);
            assert(sources@.map_values(|x: SemanticsSource<'a>| x@) =~= acc + seq![source@]);
            assert forall|rest: Seq<SpecSource>|
                #![trigger acc + (seq![source@] + rest)]
                acc + (seq![source@] + rest) == acc + seq![source@] + rest by {
                assert(acc + (seq![source@] + rest) =~= acc + seq![source@] + rest);
            }
        }
        Ok(Semantics { sources })
    }
}

} // verus!
