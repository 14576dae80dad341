use goban_notation::sgf::BranchesIterator;
use goban_notation::sgf::all_branches;
use goban_notation::sgf::GameNode;
use goban_notation::sgf::into_moves;
use goban_notation::sgf::main_variation;
use goban_notation::types::Color;
use goban_notation::types::Coord;
use goban_notation::types::Move;
use goban_notation::types::Vertex;

fn vertex_of(m: &sgf_parse::go::Move) -> Vertex {
    match m {
        sgf_parse::go::Move::Pass => Vertex::Pass,
        sgf_parse::go::Move::Move(p) => Vertex::Coord(Coord { x: p.x, y: p.y }),
    }
}

fn to_game_node(node: &sgf_parse::SgfNode<sgf_parse::go::Prop>) -> GameNode {
    let mov = match node.get_move() {
        Some(sgf_parse::go::Prop::B(m)) => Some(Move(Color::Black, vertex_of(m))),
        Some(sgf_parse::go::Prop::W(m)) => Some(Move(Color::White, vertex_of(m))),
        _ => None,
    };
    let children = node.children.iter().map(to_game_node).collect();
    GameNode { mov, children }
}

fn parse_root(sgf: &str) -> GameNode {
    let root = sgf_parse::go::parse(sgf).unwrap().into_iter().next().unwrap();
    to_game_node(&root)
}

fn leaf(mov: Option<Move>) -> GameNode {
    GameNode { mov, children: Vec::new() }
}

fn black(x: u8, y: u8) -> Move {
    Move(Color::Black, Vertex::Coord(Coord { x, y }))
}

fn white(x: u8, y: u8) -> Move {
    Move(Color::White, Vertex::Coord(Coord { x, y }))
}

#[test]
fn test_single_tree_iterator() {
    let sgf = "(;SZ[9]C[Some comment];B[de];W[fe])";
    let root = parse_root(sgf);
    let mut iter = BranchesIterator::new(&root);
    let first_branch = iter.next().unwrap();
    assert_eq!(first_branch.len(), 3);
}

#[test]
fn test_multi_tree_iterator() {
    let sgf = "(;SZ[9]C[Some comment];B[ee];W[ce](;B[ge](;W[gd])(;W[gf]))(;B[cf]))";
    let root = parse_root(sgf);
    let mut iter = BranchesIterator::new(&root);

    let first_branch = iter.next().unwrap();
    assert_eq!(first_branch.len(), 5);

    let second_branch = iter.next().unwrap();
    assert_eq!(second_branch.len(), 5);

    let third_branch = iter.next().unwrap();
    assert_eq!(third_branch.len(), 4);

    assert!(iter.next().is_none());
}

#[test]
fn test_into_moves() {
    let sgf = "(;SZ[9]C[Some comment];B[de];W[fe])";
    let root = parse_root(sgf);
    let mut iter = BranchesIterator::new(&root);
    let main_node = iter.next().unwrap();
    let moves = into_moves(&main_node);
    assert_eq!(moves.len(), 2);
    assert_eq!(moves[0], black(3, 4));
    assert_eq!(moves[1], white(5, 4));
}

#[test]
fn test_main_main_variation() {
    let sgf = "(;SZ[9]C[Some comment];B[de];W[fe])";
    let main = parse_root(sgf);
    let iter = main_variation(&main);
    let moves = into_moves(&iter);
    assert_eq!(moves.len(), 2);
    assert_eq!(moves[0], black(3, 4));
    assert_eq!(moves[1], white(5, 4));
}

#[test]
fn test_linear_chain_single_branch() {
    // a linear chain of three nodes gives exactly one branch of length 3
    let root = GameNode {
        mov: None,
        children: vec![GameNode {
            mov: Some(black(0, 0)),
            children: vec![leaf(Some(white(1, 1)))],
        }],
    };
    let mut iter = BranchesIterator::new(&root);
    let branch = iter.next().unwrap();
    assert_eq!(branch.len(), 3);
    assert!(iter.next().is_none());
}

#[test]
fn test_fork_two_branches_in_child_order() {
    // root -> move1 -> {branch a, branch b}: two branches of length 3 each,
    // branch a first
    let root = GameNode {
        mov: None,
        children: vec![GameNode {
            mov: Some(black(0, 0)),
            children: vec![leaf(Some(white(1, 0))), leaf(Some(white(2, 0)))],
        }],
    };
    let mut iter = BranchesIterator::new(&root);
    let first = iter.next().unwrap();
    assert_eq!(first.len(), 3);
    assert_eq!(into_moves(&first), vec![black(0, 0), white(1, 0)]);
    let second = iter.next().unwrap();
    assert_eq!(second.len(), 3);
    assert_eq!(into_moves(&second), vec![black(0, 0), white(2, 0)]);
    assert!(iter.next().is_none());
}

#[test]
fn test_into_moves_skips_moveless_nodes() {
    // a branch whose root carries no move yields only the two recorded moves
    let root = GameNode {
        mov: None,
        children: vec![GameNode {
            mov: Some(black(2, 3)),
            children: vec![leaf(Some(white(4, 5)))],
        }],
    };
    let branch = main_variation(&root);
    assert_eq!(branch.len(), 3);
    let moves = into_moves(&branch);
    assert_eq!(moves, vec![black(2, 3), white(4, 5)]);
}

#[test]
fn test_branch_count_matches_leaf_count() {
    // three leaves, three branches; every node appears in some branch
    let sgf = "(;SZ[9]C[Some comment];B[ee];W[ce](;B[ge](;W[gd])(;W[gf]))(;B[cf]))";
    let root = parse_root(sgf);
    let mut iter = BranchesIterator::new(&root);
    let mut count = 0;
    let mut seen = 0;
    while let Some(branch) = iter.next() {
        count += 1;
        seen += branch.len();
    }
    assert_eq!(count, 3);
    // the tree has 8 nodes; the two shared prefix nodes of the inner fork
    // appear three times, the fork node twice: 5 + 5 + 4 = 14
    assert_eq!(seen, 14);
}

#[test]
fn test_all_branches_collects_everything() {
    let sgf = "(;SZ[9]C[Some comment];B[ee];W[ce](;B[ge](;W[gd])(;W[gf]))(;B[cf]))";
    let root = parse_root(sgf);
    let all = all_branches(&root);
    assert_eq!(all.len(), 3);
    assert_eq!(all[0].len(), 5);
    assert_eq!(all[1].len(), 5);
    assert_eq!(all[2].len(), 4);
}

#[test]
fn test_single_node_tree() {
    let root = leaf(None);
    let mut iter = BranchesIterator::new(&root);
    let branch = iter.next().unwrap();
    assert_eq!(branch.len(), 1);
    assert!(into_moves(&branch).is_empty());
    assert!(iter.next().is_none());
}

#[test]
fn test_pass_move_property() {
    let root = GameNode {
        mov: None,
        children: vec![leaf(Some(Move(Color::Black, Vertex::Pass)))],
    };
    let branch = main_variation(&root);
    let moves = into_moves(&branch);
    assert_eq!(moves, vec![Move(Color::Black, Vertex::Pass)]);
}
