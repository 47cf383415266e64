use password_puzzle::carver::{generate, Carver, MazeError};
use password_puzzle::grid::{Passage, Position};
use password_puzzle::maze::{
    encode, heading_of, place_in, same, symbol_of, Borders, Direction, Maze, BORDER_WIDTH,
};

/// Cuts a maze with a rule in place of chance: at step `n`, with `k`
/// candidates, the candidate at place `pick(n, k)` is taken.
fn carve(size: u32, pick: fn(usize, usize) -> usize) -> Maze {
    let mut carver = Carver::new(size).unwrap();
    let mut step = 0;
    while !carver.is_done() {
        let options = carver.candidates();
        let choice = if options.is_empty() {
            None
        } else {
            Some(options[pick(step, options.len())])
        };
        carver.advance(choice);
        step += 1;
    }
    carver.finish()
}

fn first(_step: usize, _count: usize) -> usize {
    0
}

fn last(_step: usize, count: usize) -> usize {
    count - 1
}

fn mixed(step: usize, count: usize) -> usize {
    (step * 7 + 3) % count
}

fn root(parent: &mut Vec<usize>, mut at: usize) -> usize {
    while parent[at] != at {
        parent[at] = parent[parent[at]];
        at = parent[at];
    }
    at
}

/// Checks with a union-find that the passages join adjacent cells of the
/// grid, close no cycle, and leave one component.
fn assert_spanning_tree(maze: &Maze) {
    let size = maze.size() as usize;
    let passages = maze.passages();
    assert_eq!(passages.len(), size * size - 1);
    let mut parent: Vec<usize> = (0..size * size).collect();
    for ((ax, ay), (bx, by)) in passages.iter().copied() {
        assert!((ax as usize) < size && (ay as usize) < size);
        assert!((bx as usize) < size && (by as usize) < size);
        let dx = (ax as i64 - bx as i64).abs();
        let dy = (ay as i64 - by as i64).abs();
        assert_eq!(dx + dy, 1);
        let a = root(&mut parent, ay as usize * size + ax as usize);
        let b = root(&mut parent, by as usize * size + bx as usize);
        assert_ne!(a, b, "a passage closes a cycle");
        parent[a] = b;
    }
    let whole = root(&mut parent, 0);
    for cell in 0..size * size {
        assert_eq!(root(&mut parent, cell), whole);
    }
}

fn assert_way(maze: &Maze, way: &[Position], start: Position, goal: Position) {
    assert_eq!(way.first(), Some(&start));
    assert_eq!(way.last(), Some(&goal));
    for step in way.windows(2) {
        assert!(maze.is_open(step[0], step[1]));
    }
    for i in 0..way.len() {
        for j in i + 1..way.len() {
            assert_ne!(way[i], way[j]);
        }
    }
}

#[test]
fn grid_without_cells_is_refused() {
    assert_eq!(generate(0).err(), Some(MazeError::EmptyGrid));
    assert!(matches!(Carver::new(0), Err(MazeError::EmptyGrid)));
}

#[test]
fn single_cell_maze_has_no_passage() {
    let maze = generate(1).unwrap();
    assert_eq!(maze.size(), 1);
    assert!(maze.passages().is_empty());
    assert_eq!(maze.solve((0, 0), (0, 0)), vec![(0, 0)]);
    assert_eq!(maze.solution((0, 0), (0, 0)), "");
}

#[test]
fn carver_starts_on_the_origin() {
    let carver = Carver::new(3).unwrap();
    assert!(!carver.is_done());
    assert_eq!(carver.candidates(), vec![(1, 0), (0, 1)]);
}

#[test]
fn candidates_come_in_the_order_up_right_down_left() {
    let mut carver = Carver::new(3).unwrap();
    carver.advance(Some((1, 0)));
    carver.advance(Some((1, 1)));
    assert_eq!(carver.candidates(), vec![(2, 1), (1, 2), (0, 1)]);
    carver.advance(Some((0, 1)));
    // Above lies the origin, which is visited; the grid ends on the left.
    assert_eq!(carver.candidates(), vec![(0, 2)]);
}

#[test]
fn neighbours_beyond_the_edge_are_left_out() {
    let mut carver = Carver::new(2).unwrap();
    assert_eq!(carver.candidates(), vec![(1, 0), (0, 1)]);
    carver.advance(Some((1, 0)));
    assert_eq!(carver.candidates(), vec![(1, 1)]);
}

#[test]
fn two_by_two_maze_taking_the_first_candidate() {
    let maze = carve(2, first);
    let expected: Vec<Passage> = vec![
        ((0, 0), (1, 0)),
        ((1, 0), (1, 1)),
        ((1, 1), (0, 1)),
    ];
    assert_eq!(maze.passages(), &expected);
    assert_eq!(maze.solve((0, 0), (0, 1)), vec![(0, 0), (1, 0), (1, 1), (0, 1)]);
    assert_eq!(maze.solution((0, 0), (0, 1)), "DLU");
    assert_eq!(maze.solution((0, 1), (0, 0)), "DRU");
    assert_eq!(maze.solution((1, 0), (1, 0)), "");
}

#[test]
fn carved_mazes_are_spanning_trees() {
    for size in 1..=7 {
        assert_spanning_tree(&carve(size, first));
        assert_spanning_tree(&carve(size, last));
        assert_spanning_tree(&carve(size, mixed));
    }
}

#[test]
fn generated_mazes_are_spanning_trees() {
    for size in [1, 2, 3, 5, 20] {
        let maze = generate(size).unwrap();
        assert_eq!(maze.size(), size);
        assert_spanning_tree(&maze);
    }
}

#[test]
fn ways_are_simple_walks_between_the_two_cells() {
    let maze = carve(5, mixed);
    for sx in 0..5 {
        for sy in 0..5 {
            for gx in 0..5 {
                for gy in 0..5 {
                    let way = maze.solve((sx, sy), (gx, gy));
                    assert_way(&maze, &way, (sx, sy), (gx, gy));
                }
            }
        }
    }
}

#[test]
fn ways_are_as_short_as_the_distance() {
    let maze = generate(8).unwrap();
    let size = 8usize;
    let place = |p: Position| p.1 as usize * size + p.0 as usize;
    // Distances from the corner, by relaxing over the passages until
    // nothing changes.
    let mut distance = vec![usize::MAX; size * size];
    distance[place((7, 0))] = 0;
    let mut changed = true;
    while changed {
        changed = false;
        for (a, b) in maze.passages().iter().copied() {
            for (from, to) in [(a, b), (b, a)] {
                let through = distance[place(from)].saturating_add(1);
                if through < distance[place(to)] {
                    distance[place(to)] = through;
                    changed = true;
                }
            }
        }
    }
    for x in 0..8 {
        for y in 0..8 {
            let way = maze.solve((7, 0), (x, y));
            assert_eq!(way.len() - 1, distance[place((x, y))]);
        }
    }
}

#[test]
fn grid_beyond_the_address_space_is_refused() {
    // A machine with addresses of 64 bits has room for every grid.
    if usize::BITS < 64 {
        assert!(matches!(Carver::new(u32::MAX), Err(MazeError::TooLarge)));
        assert_eq!(generate(u32::MAX).err(), Some(MazeError::TooLarge));
    }
}

#[test]
fn way_back_is_the_way_reversed() {
    let maze = generate(6).unwrap();
    let there = maze.solve((0, 0), (5, 5));
    let mut back = maze.solve((5, 5), (0, 0));
    back.reverse();
    assert_eq!(there, back);
}

#[test]
fn way_to_the_same_cell_is_that_cell() {
    let maze = generate(4).unwrap();
    assert_eq!(maze.solve((2, 3), (2, 3)), vec![(2, 3)]);
    assert_eq!(maze.solution((2, 3), (2, 3)), "");
}

#[test]
fn solution_has_one_letter_per_step() {
    let maze = generate(20).unwrap();
    let way = maze.solve((3, 4), (17, 11));
    let text = maze.solution((3, 4), (17, 11));
    assert_eq!(text.chars().count(), way.len() - 1);
    assert_eq!(text, encode(&way));
    assert!(text.chars().all(|c| "RDLU".contains(c)));
}

#[test]
fn directions_use_the_letters_of_the_legend() {
    assert_eq!(symbol_of(Direction::Up), 'R');
    assert_eq!(symbol_of(Direction::Right), 'D');
    assert_eq!(symbol_of(Direction::Down), 'L');
    assert_eq!(symbol_of(Direction::Left), 'U');
    assert_eq!(heading_of((1, 1), (2, 1)), Direction::Right);
    assert_eq!(heading_of((1, 1), (0, 1)), Direction::Left);
    assert_eq!(heading_of((1, 1), (1, 2)), Direction::Down);
    assert_eq!(heading_of((1, 1), (1, 0)), Direction::Up);
}

#[test]
fn encode_writes_each_step() {
    assert_eq!(encode(&vec![(0, 0), (1, 0), (1, 1), (0, 1), (0, 0)]), "DLUR");
    assert_eq!(encode(&vec![(4, 4)]), "");
    assert_eq!(encode(&Vec::new()), "");
}

#[test]
fn borders_are_open_where_a_passage_leads() {
    let maze = carve(2, first);
    let open = 0;
    let shut = BORDER_WIDTH;
    assert_eq!(
        maze.borders((0, 0)),
        Borders { top: shut, right: open, bottom: shut, left: shut }
    );
    assert_eq!(
        maze.borders((1, 0)),
        Borders { top: shut, right: shut, bottom: open, left: open }
    );
    assert_eq!(
        maze.borders((1, 1)),
        Borders { top: open, right: shut, bottom: shut, left: open }
    );
    assert_eq!(
        maze.borders((0, 1)),
        Borders { top: shut, right: open, bottom: shut, left: shut }
    );
}

#[test]
fn border_rows_cover_the_grid() {
    let maze = carve(3, last);
    let rows = maze.border_rows();
    assert_eq!(rows.len(), 3);
    for (y, row) in rows.iter().enumerate() {
        assert_eq!(row.len(), 3);
        for (x, borders) in row.iter().enumerate() {
            assert_eq!(*borders, maze.borders((x as u32, y as u32)));
        }
    }
}

#[test]
fn borders_at_the_far_corner_of_the_numbers() {
    let maze = carve(2, first);
    let all = Borders {
        top: BORDER_WIDTH,
        right: BORDER_WIDTH,
        bottom: BORDER_WIDTH,
        left: BORDER_WIDTH,
    };
    assert_eq!(maze.borders((u32::MAX, u32::MAX)), all);
    assert_eq!(maze.borders((0, u32::MAX)), all);
}

#[test]
fn is_open_knows_both_directions() {
    let maze = carve(2, first);
    assert!(maze.is_open((0, 0), (1, 0)));
    assert!(maze.is_open((1, 0), (0, 0)));
    assert!(!maze.is_open((0, 0), (0, 1)));
    assert!(!maze.is_open((0, 0), (1, 1)));
    assert!(!maze.is_open((0, 0), (0, 0)));
}

#[test]
fn positions_are_compared_and_found() {
    assert!(same((1, 2), (1, 2)));
    assert!(!same((1, 2), (2, 1)));
    let list = vec![(0, 0), (3, 1), (2, 2)];
    assert_eq!(place_in(&list, (3, 1)), Some(1));
    assert_eq!(place_in(&list, (1, 3)), None);
}

#[test]
fn different_runs_of_chance_still_give_mazes() {
    // Whatever is chosen, twenty by twenty cells take 399 passages.
    for _ in 0..3 {
        let maze = generate(20).unwrap();
        assert_eq!(maze.passages().len(), 399);
    }
}
