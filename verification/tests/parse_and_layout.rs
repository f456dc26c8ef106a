use flowlog_profiler::layout::{layout_nodes, route_edges, LayoutInput};
use flowlog_profiler::parse::parse_addr;
use flowlog_profiler::strs::{trim_string, u32_to_string};
use flowlog_profiler::viewport::{UiEvent, ViewState, Viewport, InteractMode};
use flowlog_profiler::addr::Addr;
use flowlog_profiler::ops::{OpsSpec, RawNode};
use flowlog_profiler::report::{fp_map_by_name, nodes_by_name};
use flowlog_profiler::errors::addr_to_string;

#[test]
fn parse_addr_basic() {
    assert_eq!(parse_addr("[0, 8, 10]").unwrap().0, vec![0, 8, 10]);
    assert_eq!(parse_addr("[]").unwrap().0, Vec::<u32>::new());
    assert_eq!(parse_addr("  [ 1 ,2 ]  ").unwrap().0, vec![1, 2]);
    // empty segments are skipped
    assert_eq!(parse_addr("[1,,2]").unwrap().0, vec![1, 2]);
    assert_eq!(parse_addr("[,]").unwrap().0, Vec::<u32>::new());
    assert_eq!(parse_addr("[4294967295]").unwrap().0, vec![4294967295]);
}

#[test]
fn parse_addr_rejects_bad_text() {
    assert!(parse_addr("1, 2").is_err());
    assert!(parse_addr("[1, x]").is_err());
    assert!(parse_addr("[4294967296]").is_err());
    assert!(parse_addr("").is_err());
    assert!(parse_addr("[1; 2]").is_err());
}

#[test]
fn trim_and_decimal_helpers() {
    assert_eq!(trim_string("  ab c \t"), "ab c");
    assert_eq!(trim_string("   "), "");
    assert_eq!(u32_to_string(0), "0");
    assert_eq!(u32_to_string(4207), "4207");
    assert_eq!(u32_to_string(4294967295), "4294967295");
}

fn lin(id: u32, label: &str, block: &str, parents: Vec<u32>, active_us: u64) -> LayoutInput {
    LayoutInput {
        id,
        label: label.to_string(),
        block: block.to_string(),
        parents,
        active_us,
    }
}

#[test]
fn layout_ranks_follow_blocks_and_parents() {
    let nodes = vec![
        lin(0, "src", "input", vec![], 10),
        lin(1, "s one", "stratum 1", vec![0], 20),
        lin(2, "s two", "stratum 2", vec![1], 40),
        lin(3, "sink", "inspect", vec![2], 0),
    ];
    let placed = layout_nodes(&nodes);
    assert_eq!(placed.len(), 4);
    assert_eq!(placed[0].rank, 0);
    assert_eq!(placed[1].rank, 2); // stratum 1 band
    assert_eq!(placed[2].rank, 3); // stratum 2 band
    assert!(placed[3].rank > placed[2].rank);
    // ranks dominate parents: a child is always below its parents
    assert!(placed[1].rank > placed[0].rank);
    // intensity scales against the maximum
    assert_eq!(placed[2].intensity_milli, 1000);
    assert_eq!(placed[1].intensity_milli, 500);
    assert_eq!(placed[3].intensity_milli, 0);
}

#[test]
fn layout_rank_propagation_beats_base_rank() {
    // both in the middle band, but the child must sit strictly below
    let nodes = vec![lin(0, "p", "misc", vec![], 0), lin(1, "c", "misc", vec![0], 0)];
    let placed = layout_nodes(&nodes);
    assert!(placed[1].rank == placed[0].rank + 1);
    assert_eq!(placed[0].order_in_rank, 0);
    assert_eq!(placed[1].order_in_rank, 0);
    assert!(placed[1].center_y > placed[0].center_y);
}

#[test]
fn layout_wraps_long_labels() {
    let nodes = vec![lin(0, "a somewhat long operator label that wraps", "misc", vec![], 0)];
    let placed = layout_nodes(&nodes);
    assert!(placed[0].wrapped_lines.len() > 1);
    for line in &placed[0].wrapped_lines {
        // every line is within the wrap width unless a single word overflows
        assert!(line.len() <= 22 || !line.contains(' '));
    }
    assert!(placed[0].box_h >= 36);
    assert!(placed[0].box_w <= 23 * 8 + 16);
}

#[test]
fn layout_is_deterministic_across_runs() {
    let nodes = vec![
        lin(0, "alpha node", "input", vec![], 5),
        lin(1, "beta node with a longer label", "stratum 3", vec![0], 9),
        lin(2, "gamma", "misc", vec![0, 1], 2),
        lin(3, "delta", "inspect", vec![2], 7),
    ];
    let a = layout_nodes(&nodes);
    let b = layout_nodes(&nodes);
    assert_eq!(a.len(), b.len());
    for (x, y) in a.iter().zip(b.iter()) {
        assert_eq!(x.id, y.id);
        assert_eq!(x.rank, y.rank);
        assert_eq!(x.order_in_rank, y.order_in_rank);
        assert_eq!(x.center_x, y.center_x);
        assert_eq!(x.center_y, y.center_y);
        assert_eq!(x.box_w, y.box_w);
        assert_eq!(x.box_h, y.box_h);
        assert_eq!(x.wrapped_lines, y.wrapped_lines);
        assert_eq!(x.intensity_milli, y.intensity_milli);
    }
    let ea = route_edges(&nodes, &a);
    let eb = route_edges(&nodes, &b);
    assert_eq!(ea.len(), eb.len());
    assert_eq!(ea.len(), 4);
}

#[test]
fn zoom_keeps_cursor_point_fixed() {
    // graph point 50 sits at screen 50_000 milli-pixels under scale 1.0
    let v = Viewport::new();
    let g: i64 = 50;
    let c = g * v.scale_milli + v.offset_x_milli;
    let z = v.zoom_at(c, 0, 2000);
    assert_eq!(z.scale_milli, 2000);
    // the same graph point maps back to the cursor after the zoom
    assert_eq!(g * z.scale_milli + z.offset_x_milli, c);
    // and again for a second zoom on the changed viewport
    let c2 = g * z.scale_milli + z.offset_x_milli;
    let z2 = z.zoom_at(c2, 0, 700);
    assert_eq!(g * z2.scale_milli + z2.offset_x_milli, c2);
}

#[test]
fn zoom_scale_is_clamped() {
    let v = Viewport::new();
    assert_eq!(v.zoom_at(0, 0, 10).scale_milli, 200);
    assert_eq!(v.zoom_at(0, 0, 99_999).scale_milli, 4000);
}

#[test]
fn pointer_state_machine_drags_and_zooms() {
    let s0 = ViewState::new();
    assert_eq!(s0.mode, InteractMode::Idle);
    // movement while idle does not pan
    let s1 = s0.step(UiEvent::PointerMove { dx_milli: 500, dy_milli: 0 });
    assert_eq!(s1.viewport.offset_x_milli, 0);
    // down, drag, up
    let s2 = s1.step(UiEvent::PointerDown);
    assert_eq!(s2.mode, InteractMode::Dragging);
    let s3 = s2.step(UiEvent::PointerMove { dx_milli: 500, dy_milli: -200 });
    assert_eq!(s3.viewport.offset_x_milli, 500);
    assert_eq!(s3.viewport.offset_y_milli, -200);
    let s4 = s3.step(UiEvent::PointerUp);
    assert_eq!(s4.mode, InteractMode::Idle);
    // wheel zooms without changing the mode
    let s5 = s4.step(UiEvent::Wheel { cursor_x_milli: 0, cursor_y_milli: 0, new_scale_milli: 500 });
    assert_eq!(s5.mode, InteractMode::Idle);
    assert_eq!(s5.viewport.scale_milli, 500);
}

#[test]
fn addr_ordering_is_lexicographic() {
    let a = Addr::new(vec![0, 1]);
    let b = Addr::new(vec![0, 1, 0]);
    let c = Addr::new(vec![0, 2]);
    assert!(a.lt(&b)); // proper prefix comes first
    assert!(b.lt(&c));
    assert!(!c.lt(&a));
    assert!(a.eq_addr(&Addr::new(vec![0, 1])));
    assert!(!a.eq_addr(&b));
}

#[test]
fn validated_topology_converts_to_named_form() {
    let spec = OpsSpec {
        nodes: vec![
            RawNode {
                id: 2,
                name: "two".to_string(),
                block: None,
                fingerprint: None,
                tags: vec!["t".to_string()],
                operators: vec![Addr::new(vec![4])],
                parents: vec![],
            },
            RawNode {
                id: 10,
                name: "ten".to_string(),
                block: None,
                fingerprint: None,
                tags: vec![],
                operators: vec![],
                parents: vec![2],
            },
        ],
        rules: vec![],
    };
    let v = spec.validate_and_build().unwrap();
    let named = nodes_by_name(&v);
    assert_eq!(named[0].name, "2");
    assert_eq!(named[1].name, "10");
    assert_eq!(named[1].parents, vec!["2".to_string()]);
    assert_eq!(named[0].operators[0].0, vec![4]);
    let fp = fp_map_by_name(&v.fingerprint_to_node);
    assert!(fp.is_empty());
}

#[test]
fn crossing_reduction_follows_parent_positions() {
    // two roots a (order 0) and b (order 1); in the next layer, b's child
    // comes first in the input but must end up after a's child
    let nodes = vec![
        lin(0, "a", "input", vec![], 0),
        lin(1, "b", "input", vec![], 0),
        lin(2, "child of b", "misc", vec![1], 0),
        lin(3, "child of a", "misc", vec![0], 0),
    ];
    let placed = layout_nodes(&nodes);
    assert_eq!(placed[0].order_in_rank, 0);
    assert_eq!(placed[1].order_in_rank, 1);
    // barycenter: a's child (position 0 parent) sorts before b's child
    assert_eq!(placed[3].order_in_rank, 0);
    assert_eq!(placed[2].order_in_rank, 1);
    assert!(placed[3].center_x < placed[2].center_x);
}

#[test]
fn nodes_without_neighbors_sort_last_in_their_layer() {
    let nodes = vec![
        lin(0, "root", "input", vec![], 0),
        lin(1, "floating", "misc", vec![], 0),
        lin(2, "attached", "misc", vec![0], 0),
    ];
    let placed = layout_nodes(&nodes);
    // the parentless middle-band node sorts after the attached one
    assert_eq!(placed[1].rank, placed[2].rank);
    assert_eq!(placed[2].order_in_rank, 0);
    assert_eq!(placed[1].order_in_rank, 1);
}

#[test]
fn rendered_address_parses_back() {
    for path in [vec![], vec![0], vec![0, 8, 10], vec![4294967295, 1]] {
        let a = Addr::new(path.clone());
        let text = addr_to_string(&a);
        assert_eq!(parse_addr(&text).unwrap().0, path);
    }
    assert_eq!(addr_to_string(&Addr::new(vec![0, 8, 10])), "[0, 8, 10]");
    assert_eq!(addr_to_string(&Addr::new(vec![])), "[]");
}
