use collada_converter::geometry::{ConvertTo, Geometry};
use collada_converter::polylist::{check_vcount, parse_indexes};
use collada_converter::source::SourceData;

fn floats(name: &str, v: &[f32]) -> SourceData {
    SourceData::Float(String::from(name), v.iter().map(|x| x.to_bits()).collect())
}

#[test]
fn triangle_data_is_little_endian_per_vertex() {
    let x = floats("X", &[1.0, 2.0, -0.5]);
    let n = SourceData::Int(String::from("N"), vec![7, -1]);
    let list = vec![Some((&x, ConvertTo::to_f32)), None, Some((&n, ConvertTo::to_i32))];
    // one triangle: three vertices, three indexes each (one per input)
    let idx = vec![0, 9, 1, 2, 9, 0, 1, 9, 1];
    let g = Geometry::constructTriangles(list, idx, 1).ok().unwrap();
    let mut expected: Vec<u8> = Vec::new();
    expected.extend_from_slice(&1.0f32.to_le_bytes());
    expected.extend_from_slice(&(-1i32).to_le_bytes());
    expected.extend_from_slice(&(-0.5f32).to_le_bytes());
    expected.extend_from_slice(&7i32.to_le_bytes());
    expected.extend_from_slice(&2.0f32.to_le_bytes());
    expected.extend_from_slice(&(-1i32).to_le_bytes());
    assert_eq!(g.data(), &expected);
    assert_eq!(g.data().len(), 12 * 2 * 1);
    assert_eq!(g.polygons_count(), 1);
    assert!(g.material().is_none());
}

#[test]
fn triangle_data_with_no_polygons_is_empty() {
    let x = floats("X", &[1.0]);
    let g = Geometry::constructTriangles(vec![Some((&x, ConvertTo::to_f32))], vec![], 0).ok().unwrap();
    assert!(g.data().is_empty());
    assert_eq!(g.polygons_count(), 0);
}

#[test]
fn triangle_data_refuses_wrong_index_count() {
    let x = floats("X", &[1.0]);
    let r = Geometry::constructTriangles(vec![Some((&x, ConvertTo::to_f32))], vec![0, 0], 1);
    assert_eq!(r.err().unwrap(), "convertAsList.len()*polygonsCount*3 != polygonIndexes.len()");
    let r = Geometry::constructTriangles(vec![], vec![0], 1);
    assert_eq!(r.err().unwrap(), "convertAsList.len()*polygonsCount*3 != polygonIndexes.len()");
}

#[test]
fn vcount_accepts_triangles() {
    assert!(check_vcount("3 3  3 ", 3).is_ok());
    assert!(check_vcount("", 0).is_ok());
    assert!(check_vcount("3", 5).is_ok());
}

#[test]
fn vcount_refuses_more_polygons_than_counted() {
    assert_eq!(check_vcount("3 3", 1).err().unwrap(), "<vcount> content has more polygons than specified");
}

#[test]
fn vcount_refuses_other_polygons() {
    assert_eq!(
        check_vcount("3 4", 2).err().unwrap(),
        "Mesh has polygon with 4 vertices, but only triangles are allowed. You need triangulate you mesh( Alt+T in edit mode for blender )"
    );
    assert_eq!(
        check_vcount("2", 2).err().unwrap(),
        "Mesh can contain only triangles, but polygon with 2 vertices has been found"
    );
    assert_eq!(check_vcount("3 x", 2).err().unwrap(), "Can not parse vertex count for polygon \"x\"");
    assert_eq!(
        check_vcount("12", 1).err().unwrap(),
        "Mesh has polygon with 12 vertices, but only triangles are allowed. You need triangulate you mesh( Alt+T in edit mode for blender )"
    );
}

#[test]
fn indexes_are_read_in_order() {
    assert_eq!(parse_indexes(" 0 1  2 +3 10").ok().unwrap(), vec![0, 1, 2, 3, 10]);
    assert_eq!(parse_indexes("").ok().unwrap(), Vec::<usize>::new());
    assert_eq!(parse_indexes("1 -2").err().unwrap(), "Can not parse indexes polygon \"-2\"");
    assert_eq!(parse_indexes("1\n2").err().unwrap(), "Can not parse indexes polygon \"1\n2\"");
}

#[test]
fn triangle_data_converts_between_types() {
    let x = floats("X", &[2.75, -3.5, 1e20]);
    let n = SourceData::Int(String::from("N"), vec![16_777_217, -5, 0]);
    let list = vec![Some((&x, ConvertTo::to_i32)), Some((&n, ConvertTo::to_f32))];
    let idx = vec![0, 0, 1, 1, 2, 2];
    let g = Geometry::constructTriangles(list, idx, 1).ok().unwrap();
    let mut expected: Vec<u8> = Vec::new();
    expected.extend_from_slice(&(2.75f32 as i32).to_le_bytes());
    expected.extend_from_slice(&(16_777_217i32 as f32).to_le_bytes());
    expected.extend_from_slice(&(-3.5f32 as i32).to_le_bytes());
    expected.extend_from_slice(&(-5i32 as f32).to_le_bytes());
    expected.extend_from_slice(&(1e20f32 as i32).to_le_bytes());
    expected.extend_from_slice(&(0i32 as f32).to_le_bytes());
    assert_eq!(g.data(), &expected);
}

#[test]
fn indexes_of_ignored_inputs_are_not_used() {
    let x = floats("X", &[1.0, 2.0]);
    let list1 = vec![Some((&x, ConvertTo::to_f32)), None];
    let list2 = vec![Some((&x, ConvertTo::to_f32)), None];
    let a = Geometry::constructTriangles(list1, vec![0, 7, 1, 8, 0, 9], 1).ok().unwrap();
    let b = Geometry::constructTriangles(list2, vec![0, 0, 1, 100, 0, 3], 1).ok().unwrap();
    assert_eq!(a.data(), b.data());
}
