use sprouts::game::{Game, GameState, Player};
use sprouts::graph::GraphLoop;

fn new_game(seeds: usize) -> Game {
    let p1 = Player::new(0, String::from("player 1"));
    let p2 = Player::new(1, String::from("player 2"));
    Game::new(p1, p2, seeds)
}

fn never_inside(_node: usize, _polygon: Vec<usize>) -> bool {
    false
}

fn unit_size(_polygon: Vec<usize>) -> u64 {
    1
}

#[test]
fn new_game_has_isolated_seeds() {
    let game = new_game(3);
    assert_eq!(game.get_nodes(), vec![0, 1, 2]);
    assert_eq!(game.current_turn(), 0);
    assert_eq!(game.winner_id(), 0);
    assert!(matches!(game.state(), GameState::ACTIVE));
    assert!(game.is_node_alive(0));
    assert!(game.is_node_alive(1));
    assert!(game.is_node_alive(2));
}

#[test]
fn self_turn_on_isolated_spot() {
    let mut game = new_game(1);
    // a spot of degree zero may be joined to itself; the midpoint is spot 1
    assert_eq!(game.do_turn(0, 0), Some(1));
    assert_eq!(game.get_nodes(), vec![0, 1]);
    assert!(game.is_node_alive(0));
    assert!(game.is_node_alive(1));
    // both ends now carry two connections, so a second self-connection of
    // either is rejected
    assert_eq!(game.do_turn(0, 0), None);
    assert_eq!(game.do_turn(1, 1), None);
    assert_eq!(game.get_nodes(), vec![0, 1]);
}

#[test]
fn turn_blocked_at_degree_three() {
    let mut game = new_game(2);
    assert_eq!(game.do_turn(0, 0), Some(2));
    assert_eq!(game.do_turn(0, 1), Some(3));
    // spot 0 now carries three connections: dead for any proposal
    assert!(!game.is_node_alive(0));
    assert_eq!(game.do_turn(0, 1), None);
    assert_eq!(game.do_turn(0, 4), None);
    assert_eq!(game.do_turn(0, 0), None);
    // a failed turn mutates nothing
    assert_eq!(game.get_nodes(), vec![0, 1, 2, 3]);
    assert!(matches!(game.state(), GameState::ACTIVE));
}

#[test]
fn unknown_ids_are_rejected() {
    let mut game = new_game(2);
    assert_eq!(game.do_turn(0, 5), None);
    assert_eq!(game.do_turn(5, 0), None);
    assert_eq!(game.do_turn(7, 7), None);
    assert_eq!(game.get_nodes(), vec![0, 1]);
}

#[test]
fn first_move_between_three_seeds() {
    let mut game = new_game(3);
    assert_eq!(game.do_turn(0, 1), Some(3));
    game.end_turn(never_inside, unit_size);
    // seed 2 is still isolated, so the game cannot be over
    assert!(matches!(game.state(), GameState::ACTIVE));
    assert_eq!(game.current_turn(), 1);
    assert_eq!(game.get_nodes(), vec![0, 1, 2, 3]);
    assert!(game.is_node_alive(3));
}

#[test]
fn turn_alternates_and_rejection_keeps_turn() {
    let mut game = new_game(3);
    assert_eq!(game.current_turn(), 0);
    assert_eq!(game.do_turn(0, 1), Some(3));
    game.end_turn(never_inside, unit_size);
    assert_eq!(game.current_turn(), 1);
    // a rejected proposal changes neither the board nor the turn
    assert_eq!(game.do_turn(9, 9), None);
    assert_eq!(game.current_turn(), 1);
    assert_eq!(game.do_turn(2, 3), Some(4));
    game.end_turn(never_inside, unit_size);
    assert_eq!(game.current_turn(), 0);
}

#[test]
fn one_seed_game_runs_to_the_end() {
    let mut game = new_game(1);
    // first move: the lone spot loops onto itself
    assert_eq!(game.do_turn(0, 0), Some(1));
    game.end_turn(never_inside, unit_size);
    assert!(matches!(game.state(), GameState::ACTIVE));
    assert_eq!(game.current_turn(), 1);
    // second move: joining the two degree-two spots kills both; the midpoint
    // alone stays alive but has no partner and no enclosing region with an
    // alive boundary
    assert_eq!(game.do_turn(0, 1), Some(2));
    game.end_turn(never_inside, unit_size);
    assert!(matches!(game.state(), GameState::END(_)));
    assert_eq!(game.winner_id(), 1);
    assert_eq!(game.current_turn(), 1);
}

#[test]
fn ended_game_reports_last_mover_as_winner() {
    let mut game = new_game(1);
    game.do_turn(0, 0);
    game.end_turn(never_inside, unit_size);
    game.do_turn(0, 1);
    game.end_turn(never_inside, unit_size);
    assert!(matches!(game.state(), GameState::END(_)));
    // the second player moved last and wins
    assert_eq!(game.winner_id(), 1);
}

#[test]
fn single_region_is_found_once() {
    // after two moves on one seed the board holds exactly the region 0-1-2,
    // rediscovered from every start node and direction yet reported once
    let mut game = new_game(1);
    game.do_turn(0, 0);
    game.do_turn(0, 1);
    let loops = game.get_loops();
    assert_eq!(loops.len(), 1);
    assert_eq!(
        loops[0].canonical(),
        GraphLoop::from(vec![0usize, 1, 2]).canonical()
    );
}

#[test]
fn board_without_region_yields_no_loops() {
    let mut game = new_game(3);
    game.do_turn(0, 1);
    assert_eq!(game.get_loops().len(), 0);
}

#[test]
fn every_region_of_a_busy_board_is_found() {
    // four moves on two seeds weave seven distinct regions; each is reported
    // exactly once, whatever node or direction it was first read from
    let mut game = new_game(2);
    game.do_turn(0, 1);
    game.do_turn(0, 2);
    game.do_turn(1, 3);
    game.do_turn(0, 1);
    let loops = game.get_loops();
    assert_eq!(loops.len(), 7);
    let expected = [
        vec![0usize, 2, 3],
        vec![0, 2, 1, 5],
        vec![1, 2, 3, 4],
        vec![0, 2, 1, 4, 3],
        vec![0, 5, 1, 2, 3],
        vec![0, 5, 1, 4, 3],
        vec![0, 5, 1, 4, 3, 2],
    ];
    for cycle in expected {
        let canon = GraphLoop::from(cycle).canonical();
        assert!(loops.iter().any(|l| l.canonical() == canon));
    }
}

#[test]
fn check_endstate_open_while_low_degree_spot_exists() {
    let game = new_game(2);
    // isolated seeds can always be joined to themselves
    assert!(!game.check_endstate(never_inside, unit_size));
}

#[test]
fn check_endstate_geometry_can_keep_game_alive() {
    // two moves on two seeds leave spots 0 and 1 dead and 2, 3, 4 alive
    let mut game = new_game(2);
    assert_eq!(game.do_turn(0, 1), Some(2));
    assert_eq!(game.do_turn(0, 2), Some(3));
    assert_eq!(game.do_turn(1, 3), Some(4));
    // spots 2 and 4 are alive and unenclosed: still a legal move between them
    assert!(!game.check_endstate(never_inside, unit_size));
}

#[test]
fn geometry_driven_game_end() {
    // four moves on two seeds leave only spots 4 and 5 alive, and 0-2-3 is
    // the one region avoiding both; report everything enclosed and make that
    // region the smallest, and both alive spots are trapped behind a dead
    // boundary
    let mut game = new_game(2);
    assert_eq!(game.do_turn(0, 1), Some(2));
    assert_eq!(game.do_turn(0, 2), Some(3));
    assert_eq!(game.do_turn(1, 3), Some(4));
    assert_eq!(game.do_turn(0, 1), Some(5));
    let everywhere_inside = |_n: usize, _p: Vec<usize>| true;
    let favour_dead_region = |p: Vec<usize>| {
        if p.contains(&4) || p.contains(&5) {
            100u64
        } else {
            1u64
        }
    };
    assert!(game.check_endstate(everywhere_inside, favour_dead_region));
    // the same board stays open when nothing counts as enclosed: spots 4 and
    // 5 would be out in the open together
    assert!(!game.check_endstate(never_inside, unit_size));
}

#[test]
fn verdict_two_unenclosed_alive_spots_keep_playing() {
    let mut game = new_game(2);
    game.do_turn(0, 1);
    game.do_turn(0, 2);
    game.do_turn(1, 3);
    // alive spots 0, 1, 4; none enclosed: any two of them can connect
    let loops: Vec<GraphLoop> = vec![];
    let alive = vec![0, 1, 4];
    let seps = vec![None, None, None];
    assert!(!game.enclosure_verdict(&loops, &alive, &seps));
}

#[test]
fn verdict_enclosing_region_with_alive_boundary_keeps_playing() {
    let mut game = new_game(2);
    game.do_turn(0, 1);
    game.do_turn(0, 2);
    game.do_turn(1, 3);
    // spots 0-2-3 form a region; spot 0 on its boundary is alive
    let loops = vec![GraphLoop::from(vec![0usize, 2, 3])];
    let alive = vec![1, 4];
    let seps = vec![Some(0), Some(0)];
    assert!(!game.enclosure_verdict(&loops, &alive, &seps));
}

#[test]
fn verdict_enclosed_by_dead_boundary_ends_game() {
    // four moves on two seeds: spots 0, 1, 2, 3 end up dead, 4 and 5 alive,
    // and 0-2-3 is a region whose boundary is entirely dead
    let mut game = new_game(2);
    assert_eq!(game.do_turn(0, 1), Some(2));
    assert_eq!(game.do_turn(0, 2), Some(3));
    assert_eq!(game.do_turn(1, 3), Some(4));
    assert_eq!(game.do_turn(0, 1), Some(5));
    assert!(!game.is_node_alive(0));
    assert!(!game.is_node_alive(2));
    assert!(!game.is_node_alive(3));
    let loops = vec![GraphLoop::from(vec![0usize, 2, 3])];
    let alive = vec![4, 5];
    // both alive spots enclosed by the dead region: no move is reachable
    let seps = vec![Some(0), Some(0)];
    assert!(game.enclosure_verdict(&loops, &alive, &seps));
    // one enclosed by the dead region, the other alone outside
    let seps = vec![Some(0), None];
    assert!(game.enclosure_verdict(&loops, &alive, &seps));
}

#[test]
fn verdict_single_unenclosed_alive_spot_ends_game() {
    let mut game = new_game(1);
    game.do_turn(0, 0);
    game.do_turn(0, 1);
    // only spot 2 is alive, outside every region, with no partner
    let loops = vec![GraphLoop::from(vec![0usize, 1, 2])];
    let alive = vec![2];
    let seps = vec![None];
    assert!(game.enclosure_verdict(&loops, &alive, &seps));
}
