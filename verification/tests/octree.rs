use std::collections::BTreeMap;

use fluorescence::color::octree::ranking::{color_key, key_color, rank};
use fluorescence::color::octree::record::{entries, raise};
use fluorescence::color::octree::{child_index, Octree, OctreeNode, Reducer};
use fluorescence::color::{PaletteError, PrimanyColor};
use fluorescence::{Image, RgbaColor};

fn rgba(r: u8, g: u8, b: u8, a: u8) -> RgbaColor {
    RgbaColor { r, g, b, a }
}

fn image(pixels: Vec<RgbaColor>) -> Image {
    let width = pixels.len() as u32;
    Image { pixels, width, heigth: 1 }
}

#[test]
fn octree_four_pixels_red_first() {
    let pixels = vec![rgba(255, 0, 0, 255), rgba(255, 0, 0, 255), rgba(0, 255, 0, 255), rgba(0, 0, 255, 255)];
    let colors = Octree::new(image(pixels), 256, 2).get_primary_colors().unwrap();
    assert_eq!(colors.len(), 2);
    assert_eq!(colors[0], rgba(255, 0, 0, 255));
    // green and blue have one pixel each: the smaller key comes first
    assert_eq!(colors[1], rgba(0, 0, 255, 255));
}

#[test]
fn octree_solid_image_gives_its_colour() {
    let pixels = vec![rgba(12, 34, 56, 78); 10];
    let colors = Octree::new(image(pixels), 8, 4).get_primary_colors().unwrap();
    assert_eq!(colors, vec![rgba(12, 34, 56, 78)]);
}

#[test]
fn octree_single_pixel() {
    let colors = Octree::new(image(vec![rgba(1, 2, 3, 4)]), 1, 1).get_primary_colors().unwrap();
    assert_eq!(colors, vec![rgba(1, 2, 3, 4)]);
}

#[test]
fn octree_budget_of_one_leaf_merges_everything() {
    let pixels = vec![rgba(0, 0, 0, 0), rgba(255, 255, 255, 255)];
    let colors = Octree::new(image(pixels), 1, 5).get_primary_colors().unwrap();
    assert_eq!(colors, vec![rgba(127, 127, 127, 127)]);
}

#[test]
fn octree_budget_of_two_leaves_three_far_colours() {
    let pixels = vec![rgba(0, 0, 0, 0), rgba(255, 255, 255, 255), rgba(0, 0, 0, 255)];
    let colors = Octree::new(image(pixels), 2, 5).get_primary_colors().unwrap();
    assert_eq!(colors, vec![rgba(85, 85, 85, 170)]);
}

#[test]
fn octree_reduces_the_node_registered_last() {
    let pixels = vec![
        rgba(0, 0, 0, 0),
        rgba(2, 0, 0, 0),
        rgba(255, 255, 255, 255),
        rgba(253, 255, 255, 255),
    ];
    let colors = Octree::new(image(pixels), 3, 3).get_primary_colors().unwrap();
    assert_eq!(colors, vec![rgba(254, 255, 255, 255), rgba(0, 0, 0, 0), rgba(2, 0, 0, 0)]);
}

#[test]
fn octree_ranks_by_pixel_count() {
    let a = rgba(200, 10, 10, 255);
    let b = rgba(10, 200, 10, 255);
    let c = rgba(10, 10, 200, 255);
    let pixels = vec![b, a, c, a, c, a];
    let all = Octree::new(image(pixels.clone()), 64, 3).get_primary_colors().unwrap();
    assert_eq!(all, vec![a, c, b]);
    let two = Octree::new(image(pixels.clone()), 64, 2).get_primary_colors().unwrap();
    assert_eq!(two, vec![a, c]);
    let many = Octree::new(image(pixels), 64, 100).get_primary_colors().unwrap();
    assert_eq!(many, vec![a, c, b]);
}

#[test]
fn octree_lowest_bit_shares_a_leaf() {
    let pixels = vec![rgba(10, 10, 10, 10), rgba(11, 11, 11, 11), rgba(11, 10, 11, 10)];
    let colors = Octree::new(image(pixels), 256, 4).get_primary_colors().unwrap();
    // sums 32, 31, 32, 31 over three pixels
    assert_eq!(colors, vec![rgba(10, 10, 10, 10)]);
}

#[test]
fn octree_same_input_same_output() {
    let mut pixels = Vec::new();
    let mut seed: u32 = 12345;
    for _ in 0..500 {
        seed = seed.wrapping_mul(1664525).wrapping_add(1013904223);
        let v = seed.to_be_bytes();
        pixels.push(rgba(v[0], v[1], v[2], v[3]));
    }
    let first = Octree::new(image(pixels.clone()), 16, 8).get_primary_colors().unwrap();
    let second = Octree::new(image(pixels), 16, 8).get_primary_colors().unwrap();
    assert_eq!(first, second);
    assert!(first.len() <= 8);
    assert!(!first.is_empty());
}

#[test]
fn octree_keeps_the_leaf_budget_while_it_grows() {
    let mut reducer = Reducer::new();
    let mut root = OctreeNode::new(0, &rgba(0, 0, 0, 0), &mut reducer);
    let mut seed: u32 = 99;
    for _ in 0..300 {
        seed = seed.wrapping_mul(1664525).wrapping_add(1013904223);
        let v = seed.to_be_bytes();
        root.add_color(&rgba(v[0], v[1], v[2], v[3]), 0, &mut reducer);
        while reducer.leaf_count > 7 {
            root.reduce_tree(&mut reducer);
        }
        assert!(reducer.leaf_count <= 7);
        assert!(reducer.leaf_count >= 1);
    }
    let mut record = BTreeMap::new();
    root.colors_stats(&mut record);
    let total: u64 = record.values().sum();
    assert_eq!(total, 300);
    assert!(record.len() <= 7);
}

#[test]
fn octree_build_returns_tree_within_budget() {
    let pixels = vec![rgba(0, 0, 0, 0), rgba(255, 255, 255, 255), rgba(0, 0, 0, 255), rgba(9, 9, 9, 9)];
    let (root, reducer) = Octree::new(image(pixels), 2, 1).build();
    assert!(reducer.leaf_count <= 2);
    let mut record = BTreeMap::new();
    root.colors_stats(&mut record);
    let total: u64 = record.values().sum();
    assert_eq!(total, 4);
}

#[test]
fn octree_zero_leaf_budget_is_refused() {
    let result = Octree::new(image(vec![rgba(1, 1, 1, 1)]), 0, 3).get_primary_colors();
    assert_eq!(result, Err(PaletteError::InvalidParameters));
}

#[test]
fn octree_zero_palette_size_is_refused() {
    let result = Octree::new(image(vec![rgba(1, 1, 1, 1)]), 3, 0).get_primary_colors();
    assert_eq!(result, Err(PaletteError::InvalidParameters));
}

#[test]
fn octree_empty_image_is_refused() {
    let result = Octree::new(image(Vec::new()), 3, 3).get_primary_colors();
    assert_eq!(result, Err(PaletteError::EmptyImage));
}

#[test]
fn octree_parameters_are_checked_before_the_image() {
    let result = Octree::new(image(Vec::new()), 0, 0).get_primary_colors();
    assert_eq!(result, Err(PaletteError::InvalidParameters));
}

#[test]
fn child_index_packs_one_bit_of_each_channel() {
    let c = rgba(0b1000_0000, 0b0100_0000, 0b1100_0000, 0b0000_0001);
    assert_eq!(child_index(&c, 0), 0b1010);
    assert_eq!(child_index(&c, 1), 0b0110);
    assert_eq!(child_index(&c, 2), 0);
    assert_eq!(child_index(&c, 7), 0b0001);
    assert_eq!(child_index(&rgba(255, 255, 255, 255), 3), 15);
}

#[test]
fn node_new_counts_leaves_and_registers_inner_nodes() {
    let mut reducer = Reducer::new();
    assert_eq!(reducer.leaf_count, 0);
    assert_eq!(reducer.to_reduce.len(), 7);
    let leaf = OctreeNode::new(7, &rgba(1, 2, 3, 4), &mut reducer);
    assert!(leaf.is_leaf);
    assert_eq!(leaf.children_count, 0);
    assert_eq!(reducer.leaf_count, 1);
    assert_eq!((leaf.r, leaf.g, leaf.b, leaf.a), (0, 0, 0, 0));
    assert_eq!(leaf.children.len(), 16);
    assert!(leaf.children.iter().all(|c| c.is_none()));
    let inner = OctreeNode::new(3, &rgba(1, 2, 3, 4), &mut reducer);
    assert!(!inner.is_leaf);
    assert_eq!((inner.r, inner.g, inner.b, inner.a, inner.children_count), (0, 0, 0, 0, 0));
    assert_eq!(inner.children.len(), 16);
    assert!(inner.children.iter().all(|c| c.is_none()));
    assert_eq!(reducer.leaf_count, 1);
    assert_eq!(reducer.to_reduce[3], vec![rgba(1, 2, 3, 4)]);
}

#[test]
fn add_color_creates_the_route_once() {
    let mut reducer = Reducer::new();
    let mut root = OctreeNode::new(0, &rgba(0, 0, 0, 0), &mut reducer);
    let c = rgba(200, 100, 50, 25);
    root.add_color(&c, 0, &mut reducer);
    assert_eq!(reducer.leaf_count, 1);
    for level in 1..7 {
        assert_eq!(reducer.to_reduce[level], vec![c]);
    }
    assert!(!root.is_leaf);
    assert_eq!((root.r, root.g, root.b, root.a, root.children_count), (0, 0, 0, 0, 0));
    for (i, child) in root.children.iter().enumerate() {
        assert_eq!(child.is_some(), i == child_index(&c, 0));
    }
    assert_eq!(reducer.to_reduce[0], vec![rgba(0, 0, 0, 0)]);
    root.add_color(&c, 0, &mut reducer);
    assert_eq!(reducer.leaf_count, 1);
    for level in 1..7 {
        assert_eq!(reducer.to_reduce[level].len(), 1);
    }
    let mut record = BTreeMap::new();
    root.colors_stats(&mut record);
    assert_eq!(record.len(), 1);
    assert_eq!(record.get(&color_key(&c)), Some(&2));
}

#[test]
fn add_color_to_a_leaf_adds_to_its_sums() {
    let mut reducer = Reducer::new();
    let mut leaf = OctreeNode::new(7, &rgba(0, 0, 0, 0), &mut reducer);
    leaf.add_color(&rgba(10, 20, 30, 40), 7, &mut reducer);
    leaf.add_color(&rgba(1, 2, 3, 4), 7, &mut reducer);
    assert_eq!((leaf.r, leaf.g, leaf.b, leaf.a, leaf.children_count), (11, 22, 33, 44, 2));
    assert_eq!(reducer.leaf_count, 1);
    assert!(leaf.is_leaf);
    assert_eq!(leaf.children.len(), 16);
    assert!(leaf.children.iter().all(|c| c.is_none()));
}

#[test]
fn reduce_tree_folds_the_children_into_their_parent() {
    let mut reducer = Reducer::new();
    let mut root = OctreeNode::new(0, &rgba(0, 0, 0, 0), &mut reducer);
    root.add_color(&rgba(0, 0, 0, 0), 0, &mut reducer);
    root.add_color(&rgba(2, 0, 0, 0), 0, &mut reducer);
    assert_eq!(reducer.leaf_count, 2);
    assert_eq!(reducer.to_reduce[6].len(), 1);
    root.reduce_tree(&mut reducer);
    assert_eq!(reducer.leaf_count, 1);
    assert!(reducer.to_reduce[6].is_empty());
    assert_eq!(reducer.to_reduce[5].len(), 1);
    let mut node = &root;
    for _ in 0..6 {
        assert!(!node.is_leaf);
        assert_eq!((node.r, node.g, node.b, node.a, node.children_count), (0, 0, 0, 0, 0));
        assert_eq!(node.children.iter().filter(|c| c.is_some()).count(), 1);
        node = node.children[0].as_ref().unwrap();
    }
    assert!(node.is_leaf);
    assert_eq!((node.r, node.g, node.b, node.a, node.children_count), (2, 0, 0, 0, 2));
    assert_eq!(node.children.len(), 16);
    assert!(node.children.iter().all(|c| c.is_none()));
    let mut record = BTreeMap::new();
    root.colors_stats(&mut record);
    assert_eq!(record.len(), 1);
    assert_eq!(record.get(&color_key(&rgba(1, 0, 0, 0))), Some(&2));
}

#[test]
fn reduce_tree_down_to_the_root_and_then_nothing() {
    let mut reducer = Reducer::new();
    let mut root = OctreeNode::new(0, &rgba(0, 0, 0, 0), &mut reducer);
    root.add_color(&rgba(8, 8, 8, 8), 0, &mut reducer);
    for _ in 0..7 {
        root.reduce_tree(&mut reducer);
    }
    assert!(root.is_leaf);
    assert_eq!(reducer.leaf_count, 1);
    assert!(reducer.to_reduce.iter().all(|level| level.is_empty()));
    root.reduce_tree(&mut reducer);
    assert!(root.is_leaf);
    assert_eq!(reducer.leaf_count, 1);
    root.add_color(&rgba(10, 10, 10, 10), 0, &mut reducer);
    assert_eq!((root.r, root.children_count), (18, 2));
}

#[test]
fn reduce_tree_of_an_empty_root_gives_one_empty_leaf() {
    let mut reducer = Reducer::new();
    let mut root = OctreeNode::new(0, &rgba(0, 0, 0, 0), &mut reducer);
    root.reduce_tree(&mut reducer);
    assert!(root.is_leaf);
    assert_eq!(reducer.leaf_count, 1);
    let mut record = BTreeMap::new();
    root.colors_stats(&mut record);
    assert!(record.is_empty());
}

#[test]
fn colors_stats_adds_to_what_is_on_record() {
    let mut reducer = Reducer::new();
    let mut root = OctreeNode::new(0, &rgba(0, 0, 0, 0), &mut reducer);
    root.add_color(&rgba(40, 40, 40, 40), 0, &mut reducer);
    root.add_color(&rgba(200, 0, 0, 0), 0, &mut reducer);
    let mut record = BTreeMap::new();
    record.insert(color_key(&rgba(40, 40, 40, 40)), 5u64);
    root.colors_stats(&mut record);
    assert_eq!(record.len(), 2);
    assert_eq!(record.get(&color_key(&rgba(40, 40, 40, 40))), Some(&6));
    assert_eq!(record.get(&color_key(&rgba(200, 0, 0, 0))), Some(&1));
}

#[test]
fn color_key_puts_red_highest() {
    assert_eq!(color_key(&rgba(0x12, 0x34, 0x56, 0x78)), 0x1234_5678);
    assert_eq!(color_key(&rgba(255, 255, 255, 255)), u32::MAX);
    assert_eq!(color_key(&rgba(0, 0, 0, 0)), 0);
    assert_eq!(key_color(0x1234_5678), rgba(0x12, 0x34, 0x56, 0x78));
    assert_eq!(key_color(0xFF00_00FF), rgba(255, 0, 0, 255));
}

#[test]
fn raise_adds_to_a_count_or_starts_one() {
    let mut record = BTreeMap::new();
    raise(&mut record, 7, 3);
    raise(&mut record, 7, 4);
    raise(&mut record, 9, 1);
    assert_eq!(record.get(&7), Some(&7));
    assert_eq!(record.get(&9), Some(&1));
    let all = entries(&record);
    assert_eq!(all.len(), 2);
    assert_eq!((all[0].key, all[0].count), (7, 7));
    assert_eq!((all[1].key, all[1].count), (9, 1));
}

#[test]
fn rank_orders_by_count_then_by_key() {
    let mut record = BTreeMap::new();
    record.insert(color_key(&rgba(0, 255, 0, 255)), 1u64);
    record.insert(color_key(&rgba(0, 0, 255, 255)), 1u64);
    record.insert(color_key(&rgba(255, 0, 0, 255)), 2u64);
    record.insert(color_key(&rgba(9, 9, 9, 9)), 7u64);
    assert_eq!(
        rank(&record, 10),
        vec![rgba(9, 9, 9, 9), rgba(255, 0, 0, 255), rgba(0, 0, 255, 255), rgba(0, 255, 0, 255)]
    );
    assert_eq!(rank(&record, 3), vec![rgba(9, 9, 9, 9), rgba(255, 0, 0, 255), rgba(0, 0, 255, 255)]);
    assert_eq!(rank(&record, 0), Vec::<RgbaColor>::new());
    assert_eq!(rank(&BTreeMap::new(), 4), Vec::<RgbaColor>::new());
}
