use plotcanvas::canvas::Canvas;
use plotcanvas::network::{edge_intensity, Network};

fn packed(r: u32, g: u32, b: u32) -> u32 {
    (r << 16) | (g << 8) | b
}

fn two_node_net(weight_ts: u32, limit: u32) -> Network {
    Network {
        layer_list: vec![0, 1],
        layer_start: vec![0, 1],
        layer_stop: vec![0, 1],
        weight: vec![0, 0, weight_ts, 0],
        weight_limit: limit,
        pos_x: vec![10, 20],
        pos_y: vec![30, 40],
    }
}

#[test]
fn intensity_exact_values() {
    assert_eq!(edge_intensity(0, 100), 0);
    assert_eq!(edge_intensity(50, 100), 127);
    assert_eq!(edge_intensity(99, 100), 252);
    assert_eq!(edge_intensity(100, 100), 255);
    assert_eq!(edge_intensity(1000, 100), 255);
    assert_eq!(edge_intensity(1, 1), 255);
}

#[test]
fn intensity_monotone_and_saturating() {
    let mut prev = 0u8;
    for m in 0..300u32 {
        let v = edge_intensity(m, 137);
        assert!(v >= prev, "intensity dropped at {}", m);
        assert_eq!(v == 255, m >= 137, "saturation boundary at {}", m);
        prev = v;
    }
}

#[test]
fn edge_segments_two_node_net() {
    let net = two_node_net(60, 120);
    let edges = net.edge_segments();
    assert_eq!(edges.len(), 1);
    let e = edges[0];
    assert_eq!((e.x0, e.y0), (10, 30));
    assert_eq!((e.x1, e.y1), (20, 40));
    assert_eq!(e.hue, 127);
}

#[test]
fn edge_segments_layered_net() {
    // Three layers: nodes 0,1 in layer 0; node 2 in layer 1; node 3 in layer 2.
    let n = 4usize;
    let mut weight = vec![0u32; n * n];
    weight[2 * n + 0] = 10;
    weight[2 * n + 1] = 20;
    weight[3 * n + 2] = 30;
    let net = Network {
        layer_list: vec![0, 0, 1, 2],
        layer_start: vec![0, 2, 3],
        layer_stop: vec![1, 2, 3],
        weight,
        weight_limit: 60,
        pos_x: vec![0, 0, 50, 100],
        pos_y: vec![0, 80, 40, 40],
    };
    let edges = net.edge_segments();
    // Sources 0, 1 and 2 each feed the following layer: 0->2, 1->2, 2->3.
    assert_eq!(edges.len(), 3);
    assert_eq!(edges[0].hue, edge_intensity(10, 60));
    assert_eq!(edges[1].hue, edge_intensity(20, 60));
    assert_eq!(edges[2].hue, edge_intensity(30, 60));
    assert_eq!((edges[2].x0, edges[2].y0, edges[2].x1, edges[2].y1), (50, 40, 100, 40));
}

#[test]
fn nodes_drawn_on_raster() {
    let mut c = Canvas::new(9, 9);
    let net = Network {
        layer_list: vec![0, 1],
        layer_start: vec![0, 1],
        layer_stop: vec![0, 1],
        weight: vec![0; 4],
        weight_limit: 1,
        pos_x: vec![2, 6],
        pos_y: vec![2, 6],
    };
    c.plot_network_nodes(&net, [1, 2, 3], 1);
    let p = packed(1, 2, 3);
    assert_eq!(c.cells[2 * 9 + 2], p);
    assert_eq!(c.cells[6 * 9 + 6], p);
    assert_eq!(c.cells[0], 0);
}
