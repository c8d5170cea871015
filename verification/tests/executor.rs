use redis_lite::executor::choose_thread;
use redis_lite::executor::count_processors;
use redis_lite::executor::ThreadChoice;

#[test]
fn first_idle_worker_is_chosen() {
    let choice = choose_thread(&vec![true, false, false], &vec![3, 0, 0], 4);
    assert_eq!(choice, ThreadChoice::Existing(1));
}

#[test]
fn new_worker_while_under_the_limit() {
    assert_eq!(choose_thread(&vec![true, true], &vec![1, 1], 3), ThreadChoice::Spawn);
    assert_eq!(choose_thread(&vec![], &vec![], 1), ThreadChoice::Spawn);
}

#[test]
fn shortest_queue_when_all_busy_at_the_limit() {
    let choice = choose_thread(&vec![true, true, true, true], &vec![4, 2, 5, 2], 4);
    assert_eq!(choice, ThreadChoice::Existing(1));
    let choice = choose_thread(&vec![true, true], &vec![0, 0], 1);
    assert_eq!(choice, ThreadChoice::Existing(0));
}

#[test]
fn processors_are_counted_by_line_start() {
    let cpuinfo = "processor\t: 0\nvendor_id\t: x\n\nprocessor\t: 1\r\nmodel name: processor X\nprocessor\t: 2";
    assert_eq!(count_processors(cpuinfo), 3);
    assert_eq!(count_processors(""), 0);
    assert_eq!(count_processors("processo"), 0);
    assert_eq!(count_processors(" processor\n"), 0);
}
