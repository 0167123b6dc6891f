use maze::constants::DIRECTION;
use maze::maze::Maze;
use maze::maze::Strategy;

const UP: usize = 0;
const RIGHT: usize = 1;
const DOWN: usize = 2;
const LEFT: usize = 3;

/// Counts carved wall-pairs: every carve clears exactly two flags.
fn carved_edges(m: &Maze) -> usize {
    let mut open_flags = 0;
    for b in &m.blocks {
        for k in 0..4 {
            if !b.walls[k] {
                open_flags += 1;
            }
        }
    }
    assert!(open_flags % 2 == 0, "walls must fall in symmetric pairs");
    open_flags / 2
}

/// Breadth-first search over carved passages, starting from cell 0.
fn reachable_from_zero(m: &Maze) -> usize {
    let n = m.cols * m.rows;
    let mut seen = vec![false; n];
    let mut queue = vec![0usize];
    seen[0] = true;
    let mut count = 1;
    while let Some(i) = queue.pop() {
        let x = i % m.cols;
        let y = i / m.cols;
        let mut nbrs: Vec<(usize, usize)> = Vec::new();
        if y > 0 {
            nbrs.push((i - m.cols, UP));
        }
        if x + 1 < m.cols {
            nbrs.push((i + 1, RIGHT));
        }
        if y + 1 < m.rows {
            nbrs.push((i + m.cols, DOWN));
        }
        if x > 0 {
            nbrs.push((i - 1, LEFT));
        }
        for (j, dir) in nbrs {
            if !m.blocks[i].walls[dir] && !seen[j] {
                seen[j] = true;
                count += 1;
                queue.push(j);
            }
        }
    }
    count
}

fn run_to_completion(m: &mut Maze) -> usize {
    let bound = 2 * m.cols * m.rows + 2;
    let mut steps = 0;
    while !m.is_finished() {
        m.run();
        steps += 1;
        assert!(steps <= bound, "generation must finish within the step bound");
    }
    steps
}

#[test]
fn neighbor_query_is_boundary_safe() {
    let m = Maze::with_strategy(4, 4, Strategy::Frontier, 0);
    assert_eq!(m.neighbor_in_direction(0, DIRECTION::UP), None);
    assert_eq!(m.neighbor_in_direction(0, DIRECTION::LEFT), None);
    assert_eq!(m.neighbor_in_direction(0, DIRECTION::RIGHT), Some(1));
    assert_eq!(m.neighbor_in_direction(0, DIRECTION::DOWN), Some(4));
    assert_eq!(m.neighbor_in_direction(15, DIRECTION::DOWN), None);
    assert_eq!(m.neighbor_in_direction(15, DIRECTION::RIGHT), None);
    assert_eq!(m.neighbor_in_direction(15, DIRECTION::UP), Some(11));
    assert_eq!(m.neighbor_in_direction(15, DIRECTION::LEFT), Some(14));
    assert_eq!(m.neighbor_in_direction(5, DIRECTION::UP), Some(1));
    assert_eq!(m.neighbor_in_direction(5, DIRECTION::RIGHT), Some(6));
}

#[test]
fn break_wall_clears_exactly_one_symmetric_pair() {
    let mut m = Maze::with_strategy(2, 2, Strategy::Frontier, 0);
    m.break_wall(0, 1);
    assert!(m.blocks[0].visited && m.blocks[1].visited);
    assert!(!m.blocks[0].walls[RIGHT]);
    assert!(!m.blocks[1].walls[LEFT]);
    assert!(m.blocks[0].walls[UP] && m.blocks[0].walls[DOWN] && m.blocks[0].walls[LEFT]);
    assert!(m.blocks[1].walls[UP] && m.blocks[1].walls[DOWN] && m.blocks[1].walls[RIGHT]);
    assert!(m.blocks[2].walls == [true; 4] && m.blocks[3].walls == [true; 4]);
}

#[test]
fn break_wall_vertical_pair() {
    let mut m = Maze::with_strategy(2, 2, Strategy::Frontier, 0);
    m.break_wall(3, 1);
    assert!(!m.blocks[3].walls[UP]);
    assert!(!m.blocks[1].walls[DOWN]);
    assert!(m.blocks[3].walls[RIGHT] && m.blocks[3].walls[DOWN] && m.blocks[3].walls[LEFT]);
    assert!(m.blocks[1].walls[UP] && m.blocks[1].walls[RIGHT] && m.blocks[1].walls[LEFT]);
}

#[test]
fn new_grid_starts_with_one_visited_cell_and_all_walls() {
    let m = Maze::new(3, 3);
    assert_eq!(m.cols, 3);
    assert_eq!(m.rows, 3);
    assert_eq!(m.blocks.len(), 9);
    let visited = m.blocks.iter().filter(|b| b.visited).count();
    assert_eq!(visited, 1);
    for b in &m.blocks {
        assert_eq!(b.walls, [true; 4]);
    }
    for (i, b) in m.blocks.iter().enumerate() {
        assert_eq!(b.x, i % 3);
        assert_eq!(b.y, i / 3);
    }
}

#[test]
fn try_new_rejects_zero_dimensions() {
    assert!(Maze::try_new(0, 5).is_none());
    assert!(Maze::try_new(5, 0).is_none());
    assert!(Maze::try_new(0, 0).is_none());
    assert!(Maze::try_new(3, 4).is_some());
}

#[test]
fn frontier_draw_removes_one_pending_cell() {
    let mut m = Maze::with_strategy(2, 2, Strategy::Frontier, 0);
    // cell 0 visited: exactly its two neighbors are pending
    let mut pending = m.possible_ways.clone();
    pending.sort();
    assert_eq!(pending, vec![1, 2]);
    let drawn = m.get_random_possible_block().expect("frontier is not empty");
    assert!(drawn == 1 || drawn == 2);
    assert_eq!(m.possible_ways.len(), 1);
    assert!(!m.possible_ways.contains(&drawn));
    let other = m.get_random_possible_block().expect("one cell left");
    assert!(other != drawn);
    assert_eq!(m.get_random_possible_block(), None);
}

#[test]
fn visited_neighborhood_points_at_a_visited_cell() {
    let m = Maze::with_strategy(2, 2, Strategy::Frontier, 0);
    // only cell 0 is visited, so from cell 1 the only candidate is 0
    assert_eq!(m.get_visited_neighborhood(1), Some(0));
    assert_eq!(m.get_visited_neighborhood(2), Some(0));
    // cell 3 has no visited neighbor yet
    assert_eq!(m.get_visited_neighborhood(3), None);
}

#[test]
fn possible_directions_respects_walls_and_visits() {
    let mut m = Maze::with_strategy(2, 2, Strategy::Frontier, 0);
    assert_eq!(m.possible_directions(1), vec![0]);
    // carving toward 0 opens the wall, so 0 stops being a candidate
    m.break_wall(1, 0);
    assert_eq!(m.possible_directions(1), Vec::<usize>::new());
    // 3 now sees its visited neighbor 1 through an intact wall
    assert_eq!(m.possible_directions(3), vec![1]);
}

#[test]
fn frontier_strategy_completes_into_a_spanning_tree() {
    let mut m = Maze::new(5, 4);
    run_to_completion(&mut m);
    assert!(m.is_finished());
    assert!(m.blocks.iter().all(|b| b.visited));
    assert_eq!(carved_edges(&m), 5 * 4 - 1);
    assert_eq!(reachable_from_zero(&m), 5 * 4);
}

#[test]
fn backtracker_strategy_completes_into_a_spanning_tree() {
    let mut m = Maze::with_strategy(5, 4, Strategy::Backtracker, 0);
    run_to_completion(&mut m);
    assert!(m.is_finished());
    assert!(m.blocks.iter().all(|b| b.visited));
    assert_eq!(carved_edges(&m), 5 * 4 - 1);
    assert_eq!(reachable_from_zero(&m), 5 * 4);
}

#[test]
fn one_cell_grid_is_born_finished() {
    let mut m = Maze::new(1, 1);
    assert!(m.is_finished());
    assert!(m.blocks[0].visited);
    assert_eq!(carved_edges(&m), 0);
    m.run();
    assert_eq!(carved_edges(&m), 0);
}

#[test]
fn single_column_grid_completes() {
    let mut m = Maze::with_strategy(1, 5, Strategy::Backtracker, 0);
    run_to_completion(&mut m);
    assert!(m.blocks.iter().all(|b| b.visited));
    assert_eq!(carved_edges(&m), 4);
    assert_eq!(reachable_from_zero(&m), 5);
}

#[test]
fn two_by_two_backtracker_scenario() {
    // cells 0, 1 on the top row and 2, 3 below: whatever the random choices,
    // the backtracker finishes with all four cells joined by three carves.
    for _ in 0..50 {
        let mut m = Maze::with_strategy(2, 2, Strategy::Backtracker, 0);
        let mut carves = 0;
        let mut steps = 0;
        while !m.is_finished() {
            let before = carved_edges(&m);
            m.run();
            if carved_edges(&m) > before {
                carves += 1;
            }
            steps += 1;
            assert!(steps <= 10);
        }
        assert_eq!(carves, 3);
        assert_eq!(carved_edges(&m), 3);
        assert!(m.blocks.iter().all(|b| b.visited));
        assert_eq!(reachable_from_zero(&m), 4);
    }
}

#[test]
fn step_after_finished_is_a_no_op() {
    let mut m = Maze::new(3, 3);
    run_to_completion(&mut m);
    let walls_before: Vec<[bool; 4]> = m.blocks.iter().map(|b| b.walls).collect();
    let visited_before: Vec<bool> = m.blocks.iter().map(|b| b.visited).collect();
    for _ in 0..5 {
        m.run();
        assert!(m.is_finished());
        let walls_after: Vec<[bool; 4]> = m.blocks.iter().map(|b| b.walls).collect();
        let visited_after: Vec<bool> = m.blocks.iter().map(|b| b.visited).collect();
        assert_eq!(walls_before, walls_after);
        assert_eq!(visited_before, visited_after);
    }
}

#[test]
fn direction_opposites_pair_up() {
    assert_eq!(DIRECTION::UP.opposite(), DIRECTION::DOWN);
    assert_eq!(DIRECTION::DOWN.opposite(), DIRECTION::UP);
    assert_eq!(DIRECTION::LEFT.opposite(), DIRECTION::RIGHT);
    assert_eq!(DIRECTION::RIGHT.opposite(), DIRECTION::LEFT);
    assert_eq!(DIRECTION::UP.wall_index(), UP);
    assert_eq!(DIRECTION::RIGHT.wall_index(), RIGHT);
    assert_eq!(DIRECTION::DOWN.wall_index(), DOWN);
    assert_eq!(DIRECTION::LEFT.wall_index(), LEFT);
}
