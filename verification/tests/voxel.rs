//! The voxelizer and the command emitters, end to end through the
//! language.

use lispcad::eval::EvaluatedValue;
use lispcad::eval::NativeValue;
use lispcad::interp::evaluate;
use lispcad::lex::lex;
use lispcad::mc::Block;
use lispcad::mc::RasterError;
use lispcad::mc::blocks_to_cmds;
use lispcad::mc::blocks_to_destroys;
use lispcad::mc::process_native;
use lispcad::out::process_out_mc;
use lispcad::out::process_out_scad;
use lispcad::parse::parse;

fn natives(src: &str) -> Vec<EvaluatedValue> {
    evaluate(parse(lex(src)).expect("parse")).expect("evaluate")
}

fn first_native(src: &str) -> NativeValue {
    for v in natives(src) {
        if let EvaluatedValue::Native(nv) = v {
            return nv;
        }
    }
    panic!("no native value");
}

const UNIT_SQUARE: &str = "(polygon ((0 0) (0 1) (1 1) (1 0)))";

#[test]
fn unit_square_has_one_inside_block() {
    let nv = first_native(UNIT_SQUARE);
    let mut out: Vec<Block> = Vec::new();
    process_native(&nv, 1, &mut out).expect("rasterize");
    assert_eq!(out.len(), 1);
    assert_eq!(out[0].pos, (0, 0, 0));
    assert!(out[0].texture.is_none());
}

#[test]
fn extruded_square_stacks_two_layers() {
    let src = "(extrude 2 (polygon ((0 0) (0 1) (1 1) (1 0))))";
    let nv = first_native(src);
    let mut out: Vec<Block> = Vec::new();
    process_native(&nv, 1, &mut out).expect("rasterize");
    assert_eq!(out.len(), 2);
    assert_eq!(out[0].pos, (0, 0, 0));
    assert_eq!(out[1].pos, (0, 0, 1));
}

#[test]
fn rasterization_is_deterministic() {
    let nv = first_native(UNIT_SQUARE);
    let mut a: Vec<Block> = Vec::new();
    let mut b: Vec<Block> = Vec::new();
    process_native(&nv, 7, &mut a).expect("rasterize");
    process_native(&nv, 7, &mut b).expect("rasterize");
    assert_eq!(a.len(), b.len());
    for (x, y) in a.iter().zip(b.iter()) {
        assert_eq!(x.pos, y.pos);
    }
}

#[test]
fn diagonal_edge_is_unsupported() {
    let nv = first_native("(polygon ((0 0) (1 1) (2 0)))");
    let mut out: Vec<Block> = Vec::new();
    match process_native(&nv, 1, &mut out) {
        Err(RasterError::NonAxisAlignedEdge) => {}
        other => panic!("expected the non-axis-aligned failure, got {:?}", other),
    }
    assert!(out.is_empty());
}

#[test]
fn place_command_wire_format() {
    let blocks = vec![Block { pos: (3, 4, 5), texture: None }];
    let cmds = blocks_to_cmds(&blocks, None).expect("commands");
    assert_eq!(cmds, vec!["/setblock 3 5 4 birch_planks replace".to_string()]);
    let dels = blocks_to_destroys(&blocks, None);
    assert_eq!(dels, vec!["/setblock 3 5 4 air replace".to_string()]);
}

#[test]
fn textured_block_is_unsupported() {
    let blocks = vec![Block { pos: (0, 0, 0), texture: Some("stone".to_string()) }];
    match blocks_to_cmds(&blocks, None) {
        Err(RasterError::Texture) => {}
        other => panic!("expected the texture failure, got {:?}", other),
    }
    // Destruction ignores the texture.
    assert_eq!(blocks_to_destroys(&blocks, None).len(), 1);
}

#[test]
fn origin_translates_emitted_coordinates() {
    let blocks = vec![Block { pos: (1, 2, 3), texture: None }];
    let with_origin = blocks_to_cmds(&blocks, Some((10, 20, 30))).expect("commands");
    let without = blocks_to_cmds(&blocks, None).expect("commands");
    assert_eq!(without[0], "/setblock 1 3 2 birch_planks replace");
    assert_eq!(with_origin[0], "/setblock 11 33 22 birch_planks replace");
}

#[test]
fn end_to_end_extruded_square_at_scale_ten() {
    let src = "(extrude 1 (polygon ((0 0) (0 1) (1 1) (1 0))))";
    let out = natives(src);
    let (place, destroy) = process_out_mc(&out, 10, None).expect("emit");
    let lines: Vec<&str> = place.lines().collect();
    assert!(lines.len() > 0);
    // Ten layers of a ten-by-ten footprint.
    assert_eq!(lines.len(), 1000);
    for line in &lines {
        assert!(line.starts_with("/setblock "));
        assert!(line.ends_with(" birch_planks replace"));
        let fields: Vec<&str> = line.split(' ').collect();
        let x: i64 = fields[1].parse().expect("x");
        let z: i64 = fields[2].parse().expect("z");
        let y: i64 = fields[3].parse().expect("y");
        assert!((-1..=11).contains(&x));
        assert!((-1..=11).contains(&y));
        assert!((0..=10).contains(&z));
    }
    assert_eq!(destroy.lines().count(), 1000);
}

#[test]
fn scad_output_for_square() {
    let out = natives(UNIT_SQUARE);
    let text = process_out_scad(&out);
    let lines: Vec<&str> = text.lines().collect();
    assert_eq!(lines.len(), 2);
    assert_eq!(
        lines[0],
        "// Native(Polygon([(0, 0), (0, 1), (1, 1), (1, 0)], None, (0, 0, 0)))"
    );
    assert_eq!(
        lines[1],
        "translate([0,0,0]) polygon(points=[[0, 0], [0, 1], [1, 1], [1, 0]]);"
    );
}

#[test]
fn scad_output_for_extrusion() {
    let src = "(extrude 1.5 (polygon ((0 0) (0 1) (1 1) (1 0))))";
    let out = natives(src);
    let text = process_out_scad(&out);
    let stmt = text.lines().nth(1).expect("statement");
    assert_eq!(
        stmt,
        "translate([0, 0, 0]) linear_extrude(height = 1.5, center = false, twist = 0, \
         scale = 1.0) translate([0,0,0]) polygon(points=[[0, 0], [0, 1], [1, 1], [1, 0]]);"
    );
}

#[test]
fn fractional_vertices_round_to_nearest() {
    // 0.25 * 10 = 2.5 rounds away from zero to 3.
    let nv = first_native("(polygon ((0 0) (0 0.25) (1 0.25) (1 0)))");
    let mut out: Vec<Block> = Vec::new();
    process_native(&nv, 10, &mut out).expect("rasterize");
    assert!(out.iter().all(|b| (0..3).contains(&b.pos.1)));
    assert!(out.iter().any(|b| b.pos.1 == 2));
    assert_eq!(out.len(), 30);
}
