use botpath::map::{is_sky_material_name, is_tool_material_name, MapGeometry};
use botpath::vmf::VmfError;

fn side(material: &str, vertices: &[&str]) -> String {
    let mut s = String::from("side\n{\n");
    s.push_str(&format!("\"material\" \"{}\"\n", material));
    s.push_str("vertices_plus\n{\n");
    for v in vertices {
        s.push_str(&format!("\"v\" \"{}\"\n", v));
    }
    s.push_str("}\n}\n");
    s
}

fn solid(sides: &[String]) -> String {
    let mut s = String::from("solid\n{\n\"id\" \"1\"\n");
    for side in sides {
        s.push_str(side);
    }
    s.push_str("}\n");
    s
}

fn world(solids: &[String]) -> String {
    let mut s = String::from("world\n{\n\"classname\" \"worldspawn\"\n");
    for solid in solids {
        s.push_str(solid);
    }
    s.push_str("}\n");
    s
}

const QUAD: [&str; 4] = ["0 0 0", "0 64 0", "64 64 0", "64 0 0"];
const TRI: [&str; 3] = ["0 0 0", "0 64 0", "64 64 0"];

#[test]
fn nodraw_face_contributes_nothing() {
    let text = world(&[solid(&[side("TOOLS/TOOLSNODRAW", &QUAD), side("WALL01", &QUAD)])]);
    let map = MapGeometry::from_string(&text).unwrap();
    assert_eq!(map.faces.len(), 1);
    assert_eq!(map.faces[0].material, "WALL01");
    assert_eq!(map.faces[0].vertices.len(), 4);
    assert_eq!(map.indices.len(), 6);
    assert_eq!(map.indices, vec![0, 2, 1, 0, 3, 2]);
}

#[test]
fn every_tool_material_is_dropped_in_any_case() {
    let tools = [
        "TOOLS/TOOLSNODRAW",
        "tools/toolsplayerclip",
        "Tools/ToolsClip",
        "tools/toolstrigger",
        "TOOLS/toolshint",
        "tools/TOOLSSKIP",
    ];
    let sides: Vec<String> = tools.iter().map(|m| side(m, &QUAD)).collect();
    let map = MapGeometry::from_string(&world(&[solid(&sides)])).unwrap();
    assert_eq!(map.faces.len(), 0);
    assert_eq!(map.indices.len(), 0);
}

#[test]
fn material_is_upper_cased() {
    let text = world(&[solid(&[side("dev/dev_floor", &TRI)])]);
    let map = MapGeometry::from_string(&text).unwrap();
    assert_eq!(map.faces[0].material, "DEV/DEV_FLOOR");
}

#[test]
fn fans_use_global_offsets() {
    let text = world(&[solid(&[side("A", &TRI), side("B", &QUAD)])]);
    let map = MapGeometry::from_string(&text).unwrap();
    assert_eq!(map.indices, vec![0, 2, 1, 3, 5, 4, 3, 6, 5]);
}

#[test]
fn detail_entities_are_drawn_and_others_are_not() {
    let mut text = world(&[solid(&[side("A", &TRI)])]);
    text.push_str("entity\n{\n\"classname\" \"func_detail\"\n");
    text.push_str(&solid(&[side("B", &QUAD)]));
    text.push_str("}\n");
    text.push_str("entity\n{\n\"classname\" \"func_brush\"\n");
    text.push_str(&solid(&[side("C", &QUAD)]));
    text.push_str("}\n");
    text.push_str("entity\n{\n");
    text.push_str(&solid(&[side("D", &QUAD)]));
    text.push_str("}\n");
    let map = MapGeometry::from_string(&text).unwrap();
    let materials: Vec<&str> = map.faces.iter().map(|f| f.material.as_str()).collect();
    assert_eq!(materials, vec!["A", "B"]);
    assert_eq!(map.indices.len(), 3 + 6);
}

#[test]
fn face_without_material_is_dropped() {
    let s = "side\n{\nvertices_plus\n{\n\"v\" \"0 0 0\"\n}\n}\n".to_string();
    let map = MapGeometry::from_string(&world(&[solid(&[s])])).unwrap();
    assert_eq!(map.faces.len(), 0);
}

#[test]
fn face_with_two_vertices_fails() {
    let text = world(&[solid(&[side("A", &["0 0 0", "1 1 1"])])]);
    assert_eq!(MapGeometry::from_string(&text).err(), Some(VmfError::TooFewVertices));
}

#[test]
fn malformed_vertex_fails() {
    let text = world(&[solid(&[side("A", &["0 0 0", "1 1", "2 2 2"])])]);
    assert_eq!(MapGeometry::from_string(&text).err(), Some(VmfError::BadVertex));
}

#[test]
fn missing_vertex_list_fails() {
    let s = "side\n{\n\"material\" \"A\"\n}\n".to_string();
    let text = world(&[solid(&[s])]);
    assert_eq!(MapGeometry::from_string(&text).err(), Some(VmfError::MissingKey));
}

#[test]
fn map_without_world_fails() {
    assert_eq!(MapGeometry::from_string("").err(), Some(VmfError::MissingKey));
}

#[test]
fn unbalanced_map_fails() {
    let mut text = world(&[solid(&[side("A", &TRI)])]);
    text.push_str("}\n");
    assert_eq!(MapGeometry::from_string(&text).err(), Some(VmfError::UnbalancedClose));
}

#[test]
fn empty_map_has_nothing() {
    let map = MapGeometry::empty();
    assert!(map.faces.is_empty());
    assert!(map.indices.is_empty());
}

#[test]
fn material_names() {
    assert!(is_tool_material_name("TOOLS/TOOLSNODRAW"));
    assert!(!is_tool_material_name("tools/toolsnodraw"));
    assert!(!is_tool_material_name("WALL01"));
    assert!(is_sky_material_name("TOOLS/TOOLSSKYBOX"));
    assert!(is_sky_material_name("TOOLS/TOOLSSKYBOX2D"));
    assert!(!is_sky_material_name("TOOLS/TOOLSSKYBOX3D"));
}

#[test]
fn malformed_tool_face_is_still_dropped() {
    let text = world(&[solid(&[
        side("TOOLS/TOOLSCLIP", &["0 0", "x"]),
        side("WALL01", &TRI),
    ])]);
    let map = MapGeometry::from_string(&text).unwrap();
    assert_eq!(map.faces.len(), 1);
    assert_eq!(map.indices, vec![0, 2, 1]);
}

#[test]
fn tab_separated_vertices_are_read() {
    let text = world(&[solid(&[side("A", &["0\t0\t0", "0  64 0", " 64 64 0 "])])]);
    let map = MapGeometry::from_string(&text).unwrap();
    assert_eq!(map.faces[0].vertices[1], vec!["0".to_string(), "64".to_string(), "0".to_string()]);
}
