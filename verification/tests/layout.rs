//! What the layouts decide.

use diskbytes_core::error::CoreError;
use diskbytes_core::layout::bubbles::{
    bubble_rgba, build_bubble, Bubble, BubblesAsk, BubblesWalk, ALPHA_NESTED, ALPHA_PRIMARY,
};
use diskbytes_core::layout::groups::{
    group_descs, groups_total, members_total, Group, GroupAsk, GroupWalk, Member,
};
use diskbytes_core::layout::rows::{total_weight, Row, RowCandidate, RowSplit};
use diskbytes_core::layout::sunburst::{SunburstAsk, SunburstWalk};
use diskbytes_core::layout::treemap::{TreemapAsk, TreemapDraw, TreemapFit, TreemapWalk};
use diskbytes_core::layout::{
    depth_below, effective_branch_root, family_of, pack_rgba, sizeable_children, total_size,
    ColorMode, Tint,
};
use diskbytes_core::scan::categories::FileCategory;
use diskbytes_core::scan::node::{BatchEntry, Node, Tree};
use diskbytes_core::scan::rollup;
use diskbytes_core::scan::surgery::remove_subtrees;

fn dir(name: &str) -> BatchEntry {
    let mut node = Node::new_dir();
    node.modified = 10;
    BatchEntry {
        name: name.encode_utf16().collect(),
        node,
    }
}

fn file(name: &str, logical: u64, on_disk: u64, modified: i64) -> BatchEntry {
    let mut node = Node::new_file();
    node.logical = logical;
    node.on_disk = on_disk;
    node.modified = modified;
    BatchEntry {
        name: name.encode_utf16().collect(),
        node,
    }
}

fn build_tree() -> Tree {
    let mut t = Tree::new(1);
    t.add_root_path(0, "C:\\T");
    t.append_batch(
        0,
        vec![
            dir("a"),
            dir("b"),
            dir("c"),
            file("z1.bin", 100, 100, 1),
            file("z2.bin", 50, 50, 1),
        ],
    );
    t.append_batch(
        1,
        vec![
            file("a1", 60, 60, 1),
            file("a2", 30, 30, 1),
            file("a3", 50, 50, 1),
        ],
    );
    t.append_batch(2, vec![file("b1", 40, 40, 1), file("b2", 20, 20, 1)]);
    t.append_batch(3, vec![file("c1", 70, 70, 1)]);
    rollup::finalize(&mut t);
    t
}

/// "This PC", a single drive, and six folders with one file each.
fn build_single_drive_tree() -> Tree {
    let mut t = Tree::new(1);
    t.add_root_path(0, "This PC");
    t.append_batch(0, vec![dir("C:")]); // id 1
    t.append_batch(
        1,
        vec![
            dir("Users"),       // 2
            dir("Windows"),     // 3
            dir("Programs"),    // 4
            dir("ProgramData"), // 5
            dir("Temp"),        // 6
            dir("Logs"),        // 7
        ],
    );
    for (id, size) in [
        (2u32, 600u64),
        (3, 500),
        (4, 400),
        (5, 300),
        (6, 200),
        (7, 100),
    ] {
        t.append_batch(id, vec![file("f.bin", size, size, 1)]);
    }
    rollup::finalize(&mut t);
    t
}

#[test]
fn effective_branch_root_descends_single_child_chains() {
    // A root that already branches is its own branch root.
    let t = build_tree();
    assert_eq!(effective_branch_root(&t, 0), 0);
    // "This PC" → "C:" (single sizeable child) → 6 folders: the
    // branch root is C:, so families attach at C:'s children.
    let d = build_single_drive_tree();
    assert_eq!(effective_branch_root(&d, 0), 1);
}

#[test]
fn branches_part_above_a_single_file() {
    let mut t = Tree::new(1);
    t.append_batch(0, vec![dir("a"), file("empty", 9, 0, 1)]);
    t.append_batch(1, vec![dir("b")]);
    t.append_batch(3, vec![file("only", 5, 5, 1)]);
    rollup::finalize(&mut t);
    assert_eq!(effective_branch_root(&t, 0), 3);
    assert_eq!(effective_branch_root(&t, 4), 4);
    assert_eq!(depth_below(&t, 3, 0), 2);
    assert_eq!(depth_below(&t, 3, 3), 0);
    assert_eq!(sizeable_children(&t, 0), vec![1]);
    assert!(sizeable_children(&t, 4).is_empty());
}

#[test]
fn colours_and_families() {
    assert_eq!(pack_rgba(0xFF6B4A), 0xFF6B_4AFF);
    assert_eq!(pack_rgba(0), 0xFF);
    assert_eq!(bubble_rgba(0x01_0203, ALPHA_PRIMARY), 0x0102_03B4);
    assert_eq!(bubble_rgba(0x01_0203, ALPHA_NESTED), 0x0102_03D9);
    assert_eq!(family_of(5, 5, 3, 1), 3);
    assert_eq!(family_of(5, 6, 3, 1), 1);
}

#[test]
fn totals_saturate_where_they_do_not_fit() {
    let mut t = Tree::new(1);
    t.append_batch(0, vec![file("x", 1, u64::MAX, 1), file("y", 1, 1, 1)]);
    rollup::finalize(&mut t);
    assert_eq!(total_size(&t, &vec![2]), 1);
    assert_eq!(total_size(&t, &vec![1]), u64::MAX);
    assert_eq!(total_size(&t, &vec![1, 2]), u64::MAX);
    assert_eq!(total_size(&t, &vec![]), 0);
}

/// Lay a treemap out with the same answers for every rectangle.
fn treemap_try(
    t: &Tree,
    node: u32,
    depth: u32,
    budget: usize,
    fit: TreemapFit,
) -> Result<(Vec<TreemapDraw>, bool, usize), CoreError> {
    let mut walk = TreemapWalk::start(t, node, depth, ColorMode::ByFolder, budget)?;
    let mut draws = Vec::new();
    loop {
        match walk.ask(t) {
            TreemapAsk::Level { sizes, .. } => {
                for w in sizes.windows(2) {
                    assert!(w[0] >= w[1]);
                }
                walk.reply_level(t, true, sizes.len());
            }
            TreemapAsk::Item { id, .. } => {
                let answer = walk.reply_item(t, fit);
                assert!(walk.used <= budget);
                if answer.is_err() {
                    assert!(matches!(walk.ask(t), TreemapAsk::Done));
                }
                let draw = answer?;
                assert_eq!(draw.id, id);
                draws.push(draw);
            }
            TreemapAsk::Done => return Ok((draws, walk.truncated, walk.used)),
        }
    }
}

fn treemap_run(t: &Tree, node: u32, depth: u32, budget: usize, fit: TreemapFit) -> (Vec<TreemapDraw>, bool, usize) {
    treemap_try(t, node, depth, budget, fit).unwrap()
}

const ROOMY: TreemapFit = TreemapFit {
    header: true,
    roomy: true,
    visible: true,
};

#[test]
fn treemap_draws_everything_where_there_is_room() {
    let t = build_tree();
    let (draws, truncated, used) = treemap_run(&t, 0, 4, 1000, ROOMY);
    assert!(!truncated);
    // Largest first, children right behind their folder.
    let ids: Vec<u32> = draws.iter().map(|d| d.id).collect();
    assert_eq!(ids, vec![1, 6, 8, 7, 4, 3, 11, 2, 9, 10, 5]);
    // Three headers, eight rectangles.
    assert_eq!(used, 11);
    assert_eq!(draws.iter().filter(|d| d.header).count(), 3);
    assert_eq!(draws.iter().filter(|d| d.rect).count(), 8);
    for d in &draws {
        assert_eq!(d.depth, if t.node(d.id).unwrap().parent == 0 { 1 } else { 2 });
    }
}

#[test]
fn treemap_stops_at_its_depth() {
    let t = build_tree();
    let (draws, truncated, used) = treemap_run(&t, 0, 1, 1000, ROOMY);
    assert!(!truncated);
    assert_eq!(draws.len(), 5);
    // Folders get a header and a rectangle of their own.
    assert_eq!(used, 8);
    assert!(draws.iter().all(|d| d.rect && !d.children));
    let (none, _, _) = treemap_run(&t, 0, 0, 1000, ROOMY);
    assert!(none.is_empty());
}

#[test]
fn treemap_families_are_those_of_the_branches() {
    let t = build_single_drive_tree();
    let (draws, _, _) = treemap_run(&t, 0, 4, 1000, ROOMY);
    let family = |d: &TreemapDraw| match d.tint {
        Tint::Folder { family, .. } => family,
        _ => panic!("not by folder"),
    };
    for d in &draws {
        let expected = match d.id {
            1 => 0,
            2..=7 => (d.id - 2) as usize,
            // The files, one per branch.
            _ => (d.id - 8) as usize,
        };
        assert_eq!(family(d), expected, "family of {}", d.id);
    }
}

/// More cells than may be drawn are an error, at the header as at the rectangle
/// below it.
#[test]
fn treemap_with_too_many_cells_is_refused() {
    let t = build_tree();
    for budget in 0..14 {
        match treemap_try(&t, 0, 4, budget, ROOMY) {
            Ok((_, truncated, used)) => {
                assert!(budget >= 11);
                assert_eq!(used, 11);
                assert!(!truncated);
            }
            Err(e) => {
                assert!(budget < 11);
                assert_eq!(e, CoreError::TooManyCells);
            }
        }
        // A lower depth draws three headers and five rectangles.
        assert_eq!(treemap_try(&t, 0, 1, budget, ROOMY).is_ok(), budget >= 8);
    }
    // One cell is left: the header fits, its rectangle does not.
    let mut walk = TreemapWalk::start(&t, 0, 1, ColorMode::ByType, 1).unwrap();
    walk.reply_level(&t, true, 5);
    assert!(matches!(walk.reply_item(&t, ROOMY), Err(CoreError::TooManyCells)));
    assert_eq!(walk.used, 0);
    // What cannot be seen takes no cell.
    let hidden = TreemapFit {
        header: false,
        roomy: false,
        visible: false,
    };
    let (_, truncated, used) = treemap_run(&t, 0, 4, 0, hidden);
    assert!(truncated);
    assert_eq!(used, 0);
}

#[test]
fn treemap_says_what_it_leaves_out() {
    let t = build_tree();
    let hidden = TreemapFit {
        header: false,
        roomy: false,
        visible: false,
    };
    let (draws, truncated, used) = treemap_run(&t, 0, 4, 1000, hidden);
    assert_eq!(draws.len(), 5);
    assert_eq!(used, 0);
    assert!(truncated);
    // Fewer rectangles than children.
    let mut walk = TreemapWalk::start(&t, 0, 2, ColorMode::ByType, 1000).unwrap();
    walk.reply_level(&t, true, 2);
    assert!(walk.truncated);
    assert!(matches!(walk.ask(&t), TreemapAsk::Item { id: 1, index: 0 }));
    // A rectangle that is not visible at all.
    let mut walk = TreemapWalk::start(&t, 0, 2, ColorMode::ByType, 1000).unwrap();
    walk.reply_level(&t, false, 0);
    assert!(matches!(walk.ask(&t), TreemapAsk::Done));
    assert!(!walk.truncated);
}

#[test]
fn treemap_leaves_removed_and_empty_out() {
    let mut t = build_tree();
    remove_subtrees(&mut t, &[1, 5]);
    let (draws, _, _) = treemap_run(&t, 0, 4, 1000, ROOMY);
    let ids: Vec<u32> = draws.iter().map(|d| d.id).collect();
    assert_eq!(ids, vec![4, 3, 11, 2, 9, 10]);
    assert!(matches!(
        TreemapWalk::start(&t, 99, 4, ColorMode::ByAge, 10),
        Err(CoreError::NodeNotFound(99))
    ));
}

#[test]
fn tints_follow_the_colour_mode() {
    let t = build_tree();
    let tint_of = |color: ColorMode| {
        let mut walk = TreemapWalk::start(&t, 0, 2, color, 100).unwrap();
        walk.reply_level(&t, true, 5);
        walk.reply_item(&t, ROOMY).unwrap().tint
    };
    assert_eq!(
        tint_of(ColorMode::ByFolder),
        Tint::Folder {
            family: 0,
            depth: 1,
            sibling: 0
        }
    );
    assert_eq!(tint_of(ColorMode::ByType), Tint::Category(FileCategory::Other));
    assert_eq!(tint_of(ColorMode::ByAge), Tint::Age { sibling: 0 });
}

#[test]
fn rows_take_sizes_in_order() {
    let sizes = [100u64, 60, 40, 0, 7];
    assert_eq!(total_weight(&sizes), 207);
    assert_eq!(total_weight(&[u64::MAX, 5]), u64::MAX);
    assert_eq!(total_weight(&[]), 0);
    let mut split = RowSplit::start();
    assert_eq!(
        split.candidate(&sizes),
        RowCandidate::Size {
            size: 100,
            largest: 100,
            weight: 100
        }
    );
    split.accept(&sizes);
    assert_eq!(
        split.candidate(&sizes),
        RowCandidate::Size {
            size: 60,
            largest: 100,
            weight: 160
        }
    );
    split.accept(&sizes);
    assert_eq!(
        split.close(&sizes),
        Some(Row {
            begin: 0,
            end: 2,
            weight: 160
        })
    );
    split.accept(&sizes);
    assert_eq!(split.candidate(&sizes), RowCandidate::Nothing);
    assert_eq!(
        split.close(&sizes),
        Some(Row {
            begin: 2,
            end: 3,
            weight: 40
        })
    );
    assert_eq!(split.close(&sizes), None);
}

/// The weight of a row saturates, and the row goes on.
#[test]
fn heavy_rows_saturate() {
    let heavy = [u64::MAX, u64::MAX, u64::MAX / 2];
    let mut split = RowSplit::start();
    for size in heavy {
        assert_eq!(
            split.candidate(&heavy),
            RowCandidate::Size {
                size,
                largest: u64::MAX,
                weight: u64::MAX
            }
        );
        split.accept(&heavy);
    }
    assert_eq!(split.candidate(&heavy), RowCandidate::Nothing);
    assert_eq!(
        split.close(&heavy),
        Some(Row {
            begin: 0,
            end: 3,
            weight: u64::MAX
        })
    );
}

fn sunburst_run(t: &Tree, depth: u32, budget: usize, seen: bool) -> (Vec<u32>, SunburstWalk) {
    let mut walk = SunburstWalk::start(t, 0, depth, true, ColorMode::ByFolder, budget).unwrap();
    let mut ids = Vec::new();
    loop {
        match walk.ask(t) {
            SunburstAsk::Ring { node, total, visible } => {
                assert_eq!(total, t.node(node).unwrap().on_disk);
                assert!(visible <= t.children_sorted(node).len());
                walk.reply_ring(t);
            }
            SunburstAsk::Item { id, size } => {
                assert_eq!(size, t.node(id).unwrap().on_disk);
                let draw = walk.reply_item(t, seen);
                if draw.arc {
                    ids.push(draw.id);
                }
            }
            SunburstAsk::Done => return (ids, walk),
        }
    }
}

#[test]
fn sunburst_draws_ring_by_ring() {
    let t = build_tree();
    let (ids, walk) = sunburst_run(&t, 3, 1000, true);
    assert_eq!(ids, vec![1, 6, 8, 7, 4, 3, 11, 2, 9, 10, 5]);
    // The disc in the centre counts.
    assert_eq!(walk.used, 12);
    assert!(!walk.truncated);
    let (ids, walk) = sunburst_run(&t, 1, 1000, true);
    assert_eq!(ids, vec![1, 4, 3, 2, 5]);
    assert_eq!(walk.used, 6);
    let (ids, walk) = sunburst_run(&t, 3, 1000, false);
    assert!(ids.is_empty() && !walk.truncated);
    let (ids, _) = sunburst_run(&t, 0, 1000, true);
    assert!(ids.is_empty());
}

#[test]
fn sunburst_keeps_its_budget() {
    let t = build_tree();
    for budget in 1..14 {
        let (_, walk) = sunburst_run(&t, 3, budget, true);
        assert!(walk.used <= budget);
        assert_eq!(walk.truncated, budget < 12);
    }
    let walk = SunburstWalk::start(&t, 0, 3, false, ColorMode::ByAge, 9).unwrap();
    assert!(matches!(walk.ask(&t), SunburstAsk::Done));
    assert!(matches!(
        SunburstWalk::start(&t, 50, 3, true, ColorMode::ByAge, 9),
        Err(CoreError::NodeNotFound(50))
    ));
}

#[test]
fn sunburst_passes_over_what_takes_no_space() {
    let mut t = Tree::new(1);
    t.append_batch(0, vec![file("a", 1, 10, 1), file("b", 1, 0, 1), dir("c")]);
    rollup::finalize(&mut t);
    let (ids, walk) = sunburst_run(&t, 2, 5, true);
    assert_eq!(ids, vec![1]);
    assert!(!walk.truncated);
    // With the budget used up, what is left counts as left out.
    let (ids, walk) = sunburst_run(&t, 2, 2, true);
    assert_eq!(ids, vec![1]);
    assert!(walk.truncated);
}

#[test]
fn sizes_that_do_not_fit_are_laid_out() {
    let mut t = Tree::new(1);
    t.append_batch(0, vec![file("x", 1, u64::MAX, 1), file("y", 1, u64::MAX, 1)]);
    rollup::finalize(&mut t);
    let (ids, _) = sunburst_run(&t, 2, 10, true);
    assert_eq!(ids, vec![1, 2]);
    let mut walk = BubblesWalk::start(&t, 0, 2, ColorMode::ByType, 10).unwrap();
    walk.reply_circle(&t, true, true);
    match walk.ask(&t) {
        BubblesAsk::Pack { total, sizes, .. } => {
            assert_eq!(total, u64::MAX);
            assert_eq!(sizes, vec![u64::MAX, u64::MAX]);
        }
        other => panic!("unexpected {other:?}"),
    }
}

#[test]
fn bubble_hierarchy_is_collected() {
    let t = build_tree();
    let ids = |b: &Bubble| b.children.iter().map(|c| c.id).collect::<Vec<u32>>();
    let root = build_bubble(&t, 0, 2);
    assert_eq!((root.id, root.size), (0, 420));
    assert_eq!(ids(&root), vec![1, 4, 3, 2, 5]);
    assert_eq!(ids(&root.children[0]), vec![6, 8, 7]);
    assert_eq!(root.children[0].children[0].size, 60);
    assert!(root.children[0].children[0].children.is_empty());
    assert!(build_bubble(&t, 0, 0).children.is_empty());
    assert!(build_bubble(&t, 0, 1).children[0].children.is_empty());
}

fn bubbles_run(t: &Tree, depth: u32, budget: usize, kept: usize) -> (Vec<(u32, u16, u32)>, BubblesWalk) {
    let mut walk = BubblesWalk::start(t, 0, depth, ColorMode::ByFolder, budget).unwrap();
    let mut drawn = Vec::new();
    loop {
        match walk.ask(t) {
            BubblesAsk::Circle { id } => {
                let draw = walk.reply_circle(t, true, true);
                assert_eq!(draw.id, id);
                drawn.push((draw.id, draw.depth, draw.alpha));
            }
            BubblesAsk::Pack { sizes, total, .. } => {
                assert_eq!(sizes.iter().sum::<u64>(), total);
                walk.reply_pack(t, kept);
            }
            BubblesAsk::Done => return (drawn, walk),
        }
    }
}

/// The circles are those of the hierarchy, each followed by what is inside it.
#[test]
fn bubbles_draw_the_hierarchy() {
    fn ids(b: &Bubble, out: &mut Vec<u32>) {
        out.push(b.id);
        for c in &b.children {
            ids(c, out);
        }
    }
    let t = build_tree();
    for depth in 0..4 {
        let mut expected = Vec::new();
        ids(&build_bubble(&t, 0, depth), &mut expected);
        let (drawn, _) = bubbles_run(&t, depth, 1000, 1000);
        assert_eq!(drawn.iter().map(|d| d.0).collect::<Vec<u32>>(), expected);
    }
}

#[test]
fn bubbles_are_tinted_by_branch_and_tier() {
    let t = build_single_drive_tree();
    let (drawn, walk) = bubbles_run(&t, 3, 1000, 1000);
    assert_eq!(drawn.len(), 14);
    assert!(!walk.truncated);
    for (id, depth, alpha) in drawn {
        // Root, drive and branches are the primary tier, the files are nested.
        assert_eq!(alpha, if depth <= 2 { ALPHA_PRIMARY } else { ALPHA_NESTED });
        assert_eq!(u32::from(depth), depth_below(&t, id, 0));
    }
}

#[test]
fn bubbles_keep_their_budget() {
    let t = build_tree();
    for budget in 0..14 {
        let (drawn, walk) = bubbles_run(&t, 2, budget, 1000);
        assert_eq!(drawn.len(), walk.used);
        assert!(walk.used <= budget);
        assert_eq!(walk.truncated, budget < 12);
    }
    // Of each level the two largest alone are large enough.
    let (drawn, walk) = bubbles_run(&t, 2, 1000, 2);
    let ids: Vec<u32> = drawn.iter().map(|d| d.0).collect();
    assert_eq!(ids, vec![0, 1, 6, 8, 4]);
    assert!(!walk.truncated);
    assert!(matches!(
        BubblesWalk::start(&t, 12, 3, ColorMode::ByAge, 9),
        Err(CoreError::NodeNotFound(12))
    ));
}

fn groups() -> Vec<Group> {
    let group = |id: u32, name: &str, sizes: &[u64]| Group {
        id,
        name: name.to_string(),
        size: sizes.iter().sum(),
        color: 0x10_0000 + id,
        members: sizes
            .iter()
            .enumerate()
            .map(|(k, &size)| Member {
                id: id * 100 + k as u32,
                size,
            })
            .collect(),
    };
    vec![
        group(1, "Video", &[100, 20]),
        group(2, "Audio", &[50]),
        group(3, "Document", &[30]),
    ]
}

#[test]
fn groups_are_described_and_totalled() {
    let gs = groups();
    let descs = group_descs(&gs);
    assert_eq!(descs.len(), 3);
    for (d, g) in descs.iter().zip(gs.iter()) {
        assert_eq!((d.id, &d.name, d.color, d.size), (g.id, &g.name, g.color, g.size));
    }
    assert_eq!(groups_total(&gs), 200);
    assert_eq!(members_total(&gs[0].members), 120);
    let mut heavy = groups();
    heavy[2].size = u64::MAX;
    assert_eq!(groups_total(&heavy), u64::MAX);
    let m = Member { id: 1, size: u64::MAX };
    assert_eq!(members_total(&[m, m]), u64::MAX);
    assert_eq!(members_total(&[]), 0);
}

fn groups_try(
    gs: &[Group],
    used: usize,
    budget: usize,
    strict: bool,
    members: usize,
) -> Result<(Vec<u32>, GroupWalk), CoreError> {
    let mut walk = GroupWalk::start(gs, used, budget, strict);
    let mut ids = Vec::new();
    loop {
        match walk.ask(gs) {
            GroupAsk::Group { index } => {
                ids.push(gs[index].id);
                walk.reply_group(gs, true, members)?;
            }
            GroupAsk::Member { group, index } => {
                ids.push(gs[group].members[index].id);
                walk.reply_member(gs, true)?;
            }
            GroupAsk::Done => return Ok((ids, walk)),
        }
    }
}

fn groups_run(gs: &[Group], used: usize, budget: usize, members: usize) -> (Vec<u32>, GroupWalk) {
    groups_try(gs, used, budget, false, members).unwrap()
}

#[test]
fn groups_are_followed_by_their_members() {
    let gs = groups();
    let (ids, walk) = groups_run(&gs, 1, 1000, 1000);
    assert_eq!(ids, vec![1, 100, 101, 2, 200, 3, 300]);
    assert_eq!(walk.used, 8);
    assert!(!walk.truncated);
    let (ids, _) = groups_run(&gs, 1, 1000, 0);
    assert_eq!(ids, vec![1, 2, 3]);
    let (ids, _) = groups_run(&gs, 1, 1000, 1);
    assert_eq!(ids, vec![1, 100, 2, 200, 3, 300]);
    let mut walk = GroupWalk::start(&gs, 0, 10, false);
    walk.reply_group(&gs, false, 10).unwrap();
    assert_eq!(walk.ask(&gs), GroupAsk::Group { index: 1 });
    assert_eq!(walk.used, 0);
}

#[test]
fn groups_keep_their_budget_and_say_so() {
    let gs = groups();
    for budget in 1..10 {
        let (ids, walk) = groups_run(&gs, 1, budget, 1000);
        assert!(walk.used <= budget);
        assert_eq!(walk.used, ids.len() + 1);
        assert_eq!(walk.truncated, budget < 8);
    }
}

/// A strict layout of groups with a cell too many is refused.
#[test]
fn strict_groups_with_too_many_cells_are_refused() {
    let gs = groups();
    for budget in 0..10 {
        match groups_try(&gs, 0, budget, true, 1000) {
            Ok((ids, walk)) => {
                assert!(budget >= 7);
                assert_eq!(ids.len(), 7);
                assert_eq!(walk.used, 7);
                assert!(!walk.truncated);
            }
            Err(e) => {
                assert!(budget < 7);
                assert_eq!(e, CoreError::TooManyCells);
            }
        }
    }
    // What is not drawn takes no cell.
    let mut walk = GroupWalk::start(&gs, 0, 0, true);
    for index in 0..3 {
        assert_eq!(walk.ask(&gs), GroupAsk::Group { index });
        walk.reply_group(&gs, false, 0).unwrap();
    }
    assert_eq!(walk.ask(&gs), GroupAsk::Done);
}
