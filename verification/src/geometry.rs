use vstd::prelude::*;

use crate::bytes::{u32_le_bytes, write_i32_le, write_u32_le};
use crate::ieee::{i32_as_single, i32_to_single, single_as_i32, single_to_i32};
use crate::source::{source_data_len, SourceData};

verus! {

/// The type a value is written as in vertex data.
#[allow(non_camel_case_types)]
#[derive(Clone, Copy, PartialEq, Eq, Structural, Debug)]
pub enum ConvertTo {
    to_f32,
    to_i32,
}

/// The vertex data of the triangles of a mesh.
#[allow(non_snake_case)]
pub struct Geometry {
    material: Option<String>,
    data: Vec<u8>,
    polygonsCount: usize,
}

/// The 32-bit word a value is written as: a floating-point value as its bit
/// pattern, an integer in two's complement, each converted first to the type
/// asked for as `as` converts between `f32` and `i32`.
pub open spec fn converted_word(d: SourceData, c: ConvertTo, index: usize) -> u32 {
    match d {
        SourceData::Float(_, v) => match c {
            ConvertTo::to_f32 => v@[index as int],
            ConvertTo::to_i32 => single_as_i32(v@[index as int]) as u32,
        },
        SourceData::Int(_, v) => match c {
            ConvertTo::to_f32 => i32_as_single(v@[index as int]),
            ConvertTo::to_i32 => v@[index as int] as u32,
        },
    }
}

/// The bytes one value adds to the vertex data: nothing for an ignored input,
/// else the little-endian bytes of the value at `index`, converted.
pub open spec fn entry_bytes(e: Option<(SourceData, ConvertTo)>, index: usize) -> Seq<u8> {
    match e {
        None => Seq::empty(),
        Some((d, c)) => u32_le_bytes(converted_word(d, c, index)),
    }
}

/// Whether an index of the polygons can be used for an input: an ignored
/// input takes any index, the others one of the values of their parameter.
pub open spec fn entry_ok(e: Option<(SourceData, ConvertTo)>, index: usize) -> bool {
    match e {
        None => true,
        Some((d, _)) => index < source_data_len(d),
    }
}

/// The bytes of one vertex from its indexes `chunk`, from input `j` on.
pub open spec fn vertex_bytes(list: Seq<Option<(SourceData, ConvertTo)>>, chunk: Seq<usize>, j: int) -> Seq<u8>
    decreases list.len() - j,
{
    if j >= list.len() || j < 0 {
        Seq::empty()
    } else {
        entry_bytes(list[j], chunk[j]) + vertex_bytes(list, chunk, j + 1)
    }
}

/// The vertex data for the polygon indexes `idx`: for each vertex, in order,
/// the bytes of each of its inputs, in the order of `list`.
pub open spec fn triangle_bytes(list: Seq<Option<(SourceData, ConvertTo)>>, idx: Seq<usize>) -> Seq<u8>
    decreases idx.len(),
{
    if list.len() == 0 || idx.len() < list.len() {
        Seq::empty()
    } else {
        vertex_bytes(list, idx.take(list.len() as int), 0) + triangle_bytes(
            list,
            idx.skip(list.len() as int),
        )
    }
}

/// How many inputs of `list`, from input `j` on, are not ignored.
pub open spec fn inputs_taken(list: Seq<Option<(SourceData, ConvertTo)>>, j: int) -> nat
    decreases list.len() - j,
{
    if j >= list.len() || j < 0 {
        0
    } else {
        (if list[j] is Some { 1nat } else { 0nat }) + inputs_taken(list, j + 1)
    }
}

proof fn lemma_vertex_bytes_len(list: Seq<Option<(SourceData, ConvertTo)>>, chunk: Seq<usize>, j: int)
    requires
        0 <= j,
    ensures
        vertex_bytes(list, chunk, j).len() == 4 * inputs_taken(list, j),
    decreases list.len() - j,
{
    if j < list.len() {
        lemma_vertex_bytes_len(list, chunk, j + 1);
    }
}

proof fn lemma_triangle_bytes_len(list: Seq<Option<(SourceData, ConvertTo)>>, idx: Seq<usize>, k: nat)
    requires
        list.len() > 0,
        idx.len() == k * list.len(),
    ensures
        triangle_bytes(list, idx).len() == k * (4 * inputs_taken(list, 0)),
    decreases k,
{
    if k > 0 {
        assert(idx.len() >= list.len()) by (nonlinear_arith)
            requires
                idx.len() == k * list.len(),
                k > 0,
        ;
        let rest = idx.skip(list.len() as int);
        assert(rest.len() == (k - 1) * list.len()) by (nonlinear_arith)
            requires
                rest.len() == idx.len() - list.len(),
                idx.len() == k * list.len(),
        ;
        lemma_triangle_bytes_len(list, rest, (k - 1) as nat);
        lemma_vertex_bytes_len(list, idx.take(list.len() as int), 0);
        assert(k * (4 * inputs_taken(list, 0)) == (k - 1) * (4 * inputs_taken(list, 0)) + 4
            * inputs_taken(list, 0)) by (nonlinear_arith);
    } else {
        assert(idx.len() == 0) by (nonlinear_arith)
            requires
                idx.len() == k * list.len(),
                k == 0,
        ;
    }
}

/// The vertex data of `polygons_count` triangles holds one 4-byte word for
/// each input that is not ignored, for each of the three vertices of each
/// triangle.
pub proof fn lemma_geometry_data_len(
    list: Seq<Option<(SourceData, ConvertTo)>>,
    idx: Seq<usize>,
    polygons_count: nat,
)
    requires
        list.len() > 0,
        idx.len() == list.len() * polygons_count * 3,
    ensures
        triangle_bytes(list, idx).len() == 12 * inputs_taken(list, 0) * polygons_count,
{
    assert(idx.len() == (polygons_count * 3) * list.len()) by (nonlinear_arith)
        requires
            idx.len() == list.len() * polygons_count * 3,
    ;
    lemma_triangle_bytes_len(list, idx, polygons_count * 3);
    assert((polygons_count * 3) * (4 * inputs_taken(list, 0)) == 12 * inputs_taken(list, 0)
        * polygons_count) by (nonlinear_arith);
}

proof fn lemma_vertex_bytes_agree(
    list: Seq<Option<(SourceData, ConvertTo)>>,
    c1: Seq<usize>,
    c2: Seq<usize>,
    j: int,
)
    requires
        0 <= j,
        c1.len() == list.len(),
        c2.len() == list.len(),
        forall|i: int| 0 <= i < list.len() && list[i] is Some ==> c1[i] == c2[i],
    ensures
        vertex_bytes(list, c1, j) == vertex_bytes(list, c2, j),
    decreases list.len() - j,
{
    if j < list.len() {
        lemma_vertex_bytes_agree(list, c1, c2, j + 1);
    }
}

/// The indexes that stand for ignored inputs are read past but never used:
/// polygon indexes that agree wherever their input is not ignored give the
/// same vertex data.
pub proof fn lemma_ignored_indexes_unused(
    list: Seq<Option<(SourceData, ConvertTo)>>,
    i1: Seq<usize>,
    i2: Seq<usize>,
)
    requires
        list.len() > 0,
        i1.len() == i2.len(),
        forall|k: int|
            0 <= k < i1.len() && (#[trigger] list[k % (list.len() as int)]) is Some ==> i1[k] == i2[k],
    ensures
        triangle_bytes(list, i1) == triangle_bytes(list, i2),
    decreases i1.len(),
{
    let n = list.len() as int;
    if i1.len() >= n {
        let c1 = i1.take(n);
        let c2 = i2.take(n);
        assert forall|i: int| 0 <= i < n && list[i] is Some implies c1[i] == c2[i] by {
            vstd::arithmetic::div_mod::lemma_small_mod(i as nat, n as nat);
            assert(list[i % n] is Some);
        }
        lemma_vertex_bytes_agree(list, c1, c2, 0);
        let r1 = i1.skip(n);
        let r2 = i2.skip(n);
        assert forall|k: int| 0 <= k < r1.len() && (#[trigger] list[k % n]) is Some implies r1[k] == r2[k] by {
            vstd::arithmetic::div_mod::lemma_mod_add_multiples_vanish(k, n);
            assert((n + k) % n == k % n);
            assert(list[(k + n) % n] is Some);
            assert(r1[k] == i1[k + n]);
            assert(r2[k] == i2[k + n]);
        }
        lemma_ignored_indexes_unused(list, r1, r2);
    }
}

/// The inputs of a list of references, by value.
pub open spec fn input_values(list: Seq<Option<(&SourceData, ConvertTo)>>) -> Seq<Option<(SourceData, ConvertTo)>> {
    list.map_values(
        |e: Option<(&SourceData, ConvertTo)>|
            match e {
                Some((d, c)) => Some((*d, c)),
                None => None,
            },
    )
}

/// The message for polygon indexes that do not fit the inputs.
pub open spec fn index_count_message() -> Seq<char> {
    "convertAsList.len()*polygonsCount*3 != polygonIndexes.len()"@
}

impl Geometry {
    /// The material of the geometry.
    pub closed spec fn spec_material(&self) -> Option<Seq<char>> {
        match self.material {
            Some(m) => Some(m@),
            None => None,
        }
    }

    /// The vertex data.
    pub closed spec fn spec_data(&self) -> Seq<u8> {
        self.data@
    }

    /// The number of polygons.
    pub closed spec fn spec_polygons_count(&self) -> usize {
        self.polygonsCount
    }

    /// The material of the geometry, if one is set.
    pub fn material(&self) -> (r: Option<&String>)
        ensures
            match r {
                Some(m) => self.spec_material() == Some(m@),
                None => self.spec_material() is None,
            },
    {
        match &self.material {
            Some(m) => Some(m),
            None => None,
        }
    }

    /// The vertex data: for each vertex of each triangle, its values as 32-bit
    /// little-endian words.
    pub fn data(&self) -> (r: &Vec<u8>)
        ensures
            r@ == self.spec_data(),
    {
        &self.data
    }

    /// The number of polygons.
    pub fn polygons_count(&self) -> (r: usize)
        ensures
            r == self.spec_polygons_count(),
    {
        self.polygonsCount
    }

    /// The geometry with its material set to `material`.
    pub fn with_material(self, material: Option<String>) -> (g: Geometry)
        ensures
            g.spec_data() == self.spec_data(),
            g.spec_polygons_count() == self.spec_polygons_count(),
            g.spec_material() == (match material {
                Some(m) => Some(m@),
                None => None::<Seq<char>>,
            }),
    {
        Geometry { material, data: self.data, polygonsCount: self.polygonsCount }
    }

    /// Builds the vertex data of `polygonsCount` triangles. Each vertex has one
    /// index in `polygonIndexes` per input of `convertAsList`; an input that is
    /// `None` is ignored, the others add the value at their index.
    #[allow(non_snake_case)]
    pub fn constructTriangles(
        convertAsList: Vec<Option<(&SourceData, ConvertTo)>>,
        polygonIndexes: Vec<usize>,
        polygonsCount: usize,
    ) -> (r: Result<Geometry, String>)
        requires
            convertAsList.len() * polygonsCount * 3 == polygonIndexes.len() ==> forall|k: int|
                0 <= k < polygonIndexes.len() ==> #[trigger] entry_ok(
                    input_values(convertAsList@)[k % (convertAsList.len() as int)],
                    polygonIndexes@[k],
                ),
        ensures
            convertAsList.len() * polygonsCount * 3 != polygonIndexes.len() ==> (r matches Err(m)
                && m@ == index_count_message()),
            convertAsList.len() * polygonsCount * 3 == polygonIndexes.len() ==> (r matches Ok(g)
                && g.spec_data() == triangle_bytes(input_values(convertAsList@), polygonIndexes@)
                && g.spec_material() is None && g.spec_polygons_count() == polygonsCount),
    {
        let n = convertAsList.len();
        let expected = match n.checked_mul(polygonsCount) {
            Some(x) => x.checked_mul(3),
            None => None,
        };
        let fits = match expected {
            Some(x) => x == polygonIndexes.len(),
            None => false,
        };
        if !fits {
            proof {
                if n * polygonsCount * 3 == polygonIndexes.len() {
                    assert(n * polygonsCount <= n * polygonsCount * 3) by (nonlinear_arith);
                }
            }
            return Err(String::from_str("convertAsList.len()*polygonsCount*3 != polygonIndexes.len()"));
        }
        let ghost list = input_values(convertAsList@);
        let ghost idx = polygonIndexes@;
        let mut geometryData: Vec<u8> = Vec::new();
        let mut pos: usize = 0;
        let ghost mut v: int = 0;
        if n == 0 {
            assert(idx.len() == 0) by (nonlinear_arith)
                requires
                    n == 0,
                    n * polygonsCount * 3 == idx.len(),
            ;
        }
        assert(idx.skip(0) =~= idx);
        while n > 0 && pos < polygonIndexes.len()
            invariant
                list == input_values(convertAsList@),
                idx == polygonIndexes@,
                n == list.len(),
                n == convertAsList@.len(),
                n * polygonsCount * 3 == idx.len(),
                0 <= v,
                pos == v * n,
                pos <= idx.len(),
                forall|k: int| 0 <= k < idx.len() ==> #[trigger] entry_ok(list[k % (n as int)], idx[k]),
                geometryData@ + triangle_bytes(list, idx.skip(pos as int)) == triangle_bytes(list, idx),
            decreases idx.len() - pos,
        {
            assert(pos + n <= idx.len()) by (nonlinear_arith)
                requires
                    pos == v * n,
                    pos < idx.len(),
                    idx.len() == n * polygonsCount * 3,
                    n > 0,
                    v >= 0,
            {
                assert(v * n < (polygonsCount * 3) * n);
                assert(v < polygonsCount * 3);
                assert((v + 1) * n <= (polygonsCount * 3) * n);
            }
            let ghost rest = idx.skip(pos as int);
            let ghost chunk = rest.take(n as int);
            let ghost before = geometryData@;
            let mut j: usize = 0;
            while j < n
                invariant
                    list == input_values(convertAsList@),
                    idx == polygonIndexes@,
                    n == list.len(),
                    0 <= v,
                    pos == v * n,
                    pos + n <= idx.len(),
                    idx.len() == polygonIndexes.len(),
                    j <= n,
                    rest == idx.skip(pos as int),
                    chunk == rest.take(n as int),
                    forall|k: int| 0 <= k < idx.len() ==> #[trigger] entry_ok(list[k % (n as int)], idx[k]),
                    geometryData@ + vertex_bytes(list, chunk, j as int) == before + vertex_bytes(
                        list,
                        chunk,
                        0,
                    ),
                decreases n - j,
            {
                let index = polygonIndexes[pos + j];
                let ghost k = (pos + j) as int;
                assert(k % (n as int) == j) by (nonlinear_arith)
                    requires
                        k == v * n + j,
                        0 <= j < n,
                        0 <= v,
                ;
                assert(entry_ok(list[j as int], idx[k]));
                assert(chunk[j as int] == index);
                let ghost g0 = geometryData@;
                match convertAsList[j] {
                    Some((sourceData, convertTo)) => {
                        match sourceData {
                            SourceData::Float(_, data) => match convertTo {
                                ConvertTo::to_f32 => write_u32_le(&mut geometryData, data[index]),
                                ConvertTo::to_i32 => write_i32_le(
                                    &mut geometryData,
                                    single_to_i32(data[index]),
                                ),
                            },
                            SourceData::Int(_, data) => match convertTo {
                                ConvertTo::to_f32 => write_u32_le(
                                    &mut geometryData,
                                    i32_to_single(data[index]),
                                ),
                                ConvertTo::to_i32 => write_i32_le(&mut geometryData, data[index]),
                            },
                        }
                    },
                    None => {},
                }
                assert(geometryData@ == g0 + entry_bytes(list[j as int], chunk[j as int]));
                assert(vertex_bytes(list, chunk, j as int) == entry_bytes(list[j as int], chunk[j as int])
                    + vertex_bytes(list, chunk, j + 1));
                assert(geometryData@ + vertex_bytes(list, chunk, j + 1) =~= g0 + vertex_bytes(
                    list,
                    chunk,
                    j as int,
                ));
                j = j + 1;
            }
            assert(vertex_bytes(list, chunk, n as int) =~= Seq::<u8>::empty());
            assert(geometryData@ =~= before + vertex_bytes(list, chunk, 0));
            assert(triangle_bytes(list, rest) == vertex_bytes(list, chunk, 0) + triangle_bytes(
                list,
                rest.skip(n as int),
            ));
            assert(rest.skip(n as int) =~= idx.skip(pos + n));
            assert(geometryData@ + triangle_bytes(list, idx.skip(pos + n)) =~= before
                + triangle_bytes(list, rest));
            pos = pos + n;
            proof {
                v = v + 1;
                assert(pos == v * n) by (nonlinear_arith)
                    requires
                        pos == (v - 1) * n + n,
                ;
            }
        }
        assert(idx.skip(pos as int).len() == 0 ==> triangle_bytes(list, idx.skip(pos as int)) == Seq::<u8>::empty());
        assert(geometryData@ =~= triangle_bytes(list, idx));
        Ok(Geometry { material: None, data: geometryData, polygonsCount })
    }
}

} // verus!
