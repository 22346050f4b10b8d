use puzzle_solvers::day23::{
    get_all_connections, get_all_trios, get_all_trios_with_t, get_biggest_lan_party,
    get_party_of_size_n, parse, solve,
};
use puzzle_solvers::error::PuzzleError;

const EXAMPLE: &str = "kh-tc
qp-kh
de-cg
ka-co
yn-aq
qp-ub
cg-tb
vc-aq
tb-ka
wh-tc
yn-cg
kh-ub
ta-co
de-co
tc-td
tb-wq
wh-td
ta-ka
td-qp
aq-cg
wq-ub
ub-vc
de-ta
wq-aq
wq-vc
wh-yn
ka-de
kh-ta
co-tc
wh-qp
tb-vc
td-yn";

const SHORT_EXAMPLE: &str = "ka-co
ta-co
de-co
ta-ka
de-ta
ka-de";

#[test]
fn test_trios() {
    let single_connections = parse(EXAMPLE).unwrap();
    let connections = get_all_connections(&single_connections);
    assert_eq!(7, get_all_trios_with_t(&connections));
}

#[test]
fn test_biggest_lan_party_large_input() {
    let single_connections = parse(EXAMPLE).unwrap();
    let connections = get_all_connections(&single_connections);
    let conn = get_biggest_lan_party(&connections);
    assert_eq!(conn, "co,de,ka,ta");
}

#[test]
fn test_biggest_lan_party() {
    let single_connections = parse(SHORT_EXAMPLE).unwrap();
    let connections = get_all_connections(&single_connections);
    let conn = get_biggest_lan_party(&connections);
    assert_eq!(conn, "co,de,ka,ta");
}

#[test]
fn day23_solve() {
    assert_eq!(solve(EXAMPLE), Ok((7, "co,de,ka,ta".to_string())));
    assert_eq!(solve("a-b\nb-c"), Ok((0, String::new())));
    assert_eq!(solve(""), Ok((0, String::new())));
    assert_eq!(solve("a-b\nbc"), Err(PuzzleError::MalformedInput));
}

#[test]
fn day23_network() {
    let connections = get_all_connections(&parse("a-b\nc-a\nb-c\na-b").unwrap());
    let name = |s: &str| s.chars().collect::<Vec<char>>();
    assert_eq!(connections.names, vec![name("a"), name("b"), name("c")]);
    assert_eq!(connections.links, vec![vec![1, 2, 1], vec![0, 2, 0], vec![0, 1]]);
}

#[test]
fn day23_all_trios_of_the_example() {
    let connections = get_all_connections(&parse(EXAMPLE).unwrap());
    let trios = get_all_trios(&connections);
    assert_eq!(trios.len(), 12);
    for (i, j, k) in &trios {
        assert!(i < j && j < k);
        assert!(connections.links[*i].contains(j));
        assert!(connections.links[*i].contains(k));
        assert!(connections.links[*j].contains(k));
    }
    let mut sorted = trios.clone();
    sorted.sort();
    sorted.dedup();
    assert_eq!(sorted, trios);
}

#[test]
fn day23_parties_by_size() {
    let connections = get_all_connections(&parse(SHORT_EXAMPLE).unwrap());
    assert_eq!(get_party_of_size_n(&connections, 4), Some("co,de,ka,ta".to_string()));
    assert_eq!(get_party_of_size_n(&connections, 5), None);
    assert_eq!(get_party_of_size_n(&connections, 1), Some("ka".to_string()));
    let party = get_party_of_size_n(&connections, 3).unwrap();
    let names: Vec<&str> = party.split(',').collect();
    assert_eq!(names.len(), 3);
    let mut sorted = names.clone();
    sorted.sort();
    assert_eq!(names, sorted);
    let pair = get_all_connections(&parse("zz-aa").unwrap());
    assert_eq!(get_party_of_size_n(&pair, 2), Some("aa,zz".to_string()));
    assert_eq!(get_biggest_lan_party(&pair), "");
}

#[test]
fn day23_a_triangle_is_the_smallest_party_that_counts() {
    let connections = get_all_connections(&parse("tb-x\nx-y\ny-tb").unwrap());
    assert_eq!(get_all_trios_with_t(&connections), 1);
    assert_eq!(get_biggest_lan_party(&connections), "tb,x,y");
    let none = get_all_connections(&parse("ab-xt\nxt-yt\nyt-ab").unwrap());
    assert_eq!(get_all_trios_with_t(&none), 0);
}
