use advent::garden::{GardenMap, GardenRange, GardenRule};
use advent::seed_locations;
use advent::seed_range_locations;

fn example_map() -> Vec<String> {
    ["seed-to-soil map:", "50 98 2", "52 50 48", "", "extra"]
        .iter()
        .map(|line| line.to_string())
        .collect()
}

fn example_input() -> Vec<String> {
    [
        "seeds: 79 14 55 13",
        "",
        "seed-to-soil map:",
        "50 98 2",
        "52 50 48",
        "",
        "soil-to-fertilizer map:",
        "0 15 37",
        "37 52 2",
        "39 0 15",
        "",
        "fertilizer-to-water map:",
        "49 53 8",
        "0 11 42",
        "42 0 7",
        "57 7 4",
        "",
        "water-to-light map:",
        "88 18 7",
        "18 25 70",
        "",
        "light-to-temperature map:",
        "45 77 23",
        "81 45 19",
        "68 64 13",
        "",
        "temperature-to-humidity map:",
        "0 69 1",
        "1 0 69",
        "",
        "humidity-to-location map:",
        "60 56 37",
        "56 93 4",
    ]
    .iter()
    .map(|line| line.to_string())
    .collect()
}

#[test]
fn test_garden_rule_parse() {
    assert_eq!(
        GardenRule::parse("50 98 2"),
        GardenRule {
            source: 98,
            target: 50,
            length: 2
        }
    );
}

#[test]
fn test_garden_rule_map() {
    let rule = GardenRule::parse("50 98 2");
    assert_eq!(rule.map(97), None);
    assert_eq!(rule.map(98), Some(50));
    assert_eq!(rule.map(99), Some(51));
    assert_eq!(rule.map(100), None);
}

#[test]
fn test_garden_rule_map_range() {
    let rule = GardenRule::parse("50 98 5");
    // After
    assert_eq!(
        rule.map_range(&GardenRange {
            start: 104,
            length: 10
        }),
        (
            vec![],
            Some(GardenRange {
                start: 104,
                length: 10
            }),
        )
    );
    // Overlap at end
    assert_eq!(
        rule.map_range(&GardenRange {
            start: 102,
            length: 10
        }),
        (
            vec![GardenRange {
                start: 54,
                length: 1
            }],
            Some(GardenRange {
                start: 103,
                length: 9
            }),
        )
    );
    assert_eq!(
        rule.map_range(&GardenRange {
            start: 100,
            length: 10
        }),
        (
            vec![GardenRange {
                start: 52,
                length: 3
            }],
            Some(GardenRange {
                start: 103,
                length: 7
            }),
        )
    );
    // Contains
    assert_eq!(
        rule.map_range(&GardenRange {
            start: 96,
            length: 10
        }),
        (
            vec![
                GardenRange {
                    start: 96,
                    length: 2
                },
                GardenRange {
                    start: 50,
                    length: 5
                }
            ],
            Some(GardenRange {
                start: 103,
                length: 3
            }),
        )
    );
    // Same
    assert_eq!(
        rule.map_range(&GardenRange {
            start: 98,
            length: 5
        }),
        (
            vec![GardenRange {
                start: 50,
                length: 5
            }],
            None,
        )
    );
    // Overlap front
    assert_eq!(
        rule.map_range(&GardenRange {
            start: 96,
            length: 5
        }),
        (
            vec![
                GardenRange {
                    start: 96,
                    length: 2
                },
                GardenRange {
                    start: 50,
                    length: 3
                },
            ],
            None,
        )
    );
    // Before
    assert_eq!(
        rule.map_range(&GardenRange {
            start: 92,
            length: 5
        }),
        (
            vec![GardenRange {
                start: 92,
                length: 5
            },],
            None,
        )
    );
    // Within
    assert_eq!(
        rule.map_range(&GardenRange {
            start: 99,
            length: 3
        }),
        (
            vec![GardenRange {
                start: 51,
                length: 3
            },],
            None,
        )
    );
}

#[test]
fn test_garden_map_parse() {
    let lines = example_map();
    let (map, next) = GardenMap::parse(&lines, 0);
    assert_eq!(
        map,
        GardenMap {
            name: "seed-to-soil".to_string(),
            rules: Vec::from([GardenRule::parse("52 50 48"), GardenRule::parse("50 98 2"),]),
        }
    );
    assert_eq!(lines[next], "extra".to_string());
}

#[test]
fn test_garden_map_map() {
    let lines = example_map();
    let (garden_map, _) = GardenMap::parse(&lines, 0);
    assert_eq!(garden_map.map(49), 49);
    assert_eq!(garden_map.map(50), 52);
    assert_eq!(garden_map.map(51), 53);
    assert_eq!(garden_map.map(96), 98);
    assert_eq!(garden_map.map(97), 99);
    assert_eq!(garden_map.map(98), 50);
    assert_eq!(garden_map.map(99), 51);
    assert_eq!(garden_map.map(100), 100);
}

#[test]
fn test_garden_map_map_range() {
    let lines = example_map();
    let (garden_map, _) = GardenMap::parse(&lines, 0);
    assert_eq!(
        garden_map.map_range(&GardenRange {
            start: 40,
            length: 100
        }),
        (
            vec![
                GardenRange {
                    start: 40,
                    length: 10
                },
                GardenRange {
                    start: 52,
                    length: 48
                },
                GardenRange {
                    start: 50,
                    length: 2
                },
            ],
            Some(GardenRange {
                start: 100,
                length: 40
            })
        )
    );
}

#[test]
fn test_calulate() {
    assert_eq!(seed_locations::calculate(&example_input()), 35)
}

#[test]
fn main_test_calulate() {
    assert_eq!(seed_range_locations::calculate(&example_input()), 46)
}

#[test]
fn conservation_over_one_stage() {
    // the lengths of the split pieces of any range sum to its length
    let lines = example_map();
    let (garden_map, _) = GardenMap::parse(&lines, 0);
    for (start, length) in [(40usize, 100usize), (96, 10), (0, 200), (98, 2), (97, 1)] {
        let (pieces, rest) = garden_map.map_range(&GardenRange { start, length });
        let mut total: usize = pieces.iter().map(|p| p.length).sum();
        if let Some(t) = rest {
            total += t.length;
        }
        assert_eq!(total, length);
    }
}

#[test]
fn no_zero_length_outputs() {
    let lines = example_map();
    let (garden_map, _) = GardenMap::parse(&lines, 0);
    for start in 0..200usize {
        let (pieces, rest) = garden_map.map_range(&GardenRange { start, length: 7 });
        for p in &pieces {
            assert!(p.length > 0);
        }
        if let Some(t) = rest {
            assert!(t.length > 0);
        }
    }
}

#[test]
fn point_and_range_paths_agree() {
    // mapping [n, n + 1) must land exactly on the point map's value
    let lines = example_map();
    let (garden_map, _) = GardenMap::parse(&lines, 0);
    for n in 0..200usize {
        let (mut pieces, rest) = garden_map.map_range(&GardenRange { start: n, length: 1 });
        if let Some(t) = rest {
            pieces.push(t);
        }
        assert_eq!(
            pieces,
            vec![GardenRange {
                start: garden_map.map(n),
                length: 1
            }]
        );
    }
}

#[test]
fn parse_twice_yields_identical_rules() {
    let lines = example_map();
    let (first, _) = GardenMap::parse(&lines, 0);
    let (second, _) = GardenMap::parse(&lines, 0);
    assert_eq!(first.rules, second.rules);
}

#[test]
fn seed_order_does_not_change_the_minimum() {
    let mut reordered = example_input();
    reordered[0] = "seeds: 13 55 14 79".to_string();
    assert_eq!(seed_locations::calculate(&reordered), 35);
    let mut swapped = example_input();
    swapped[0] = "seeds: 55 13 79 14".to_string();
    assert_eq!(seed_range_locations::calculate(&swapped), 46);
}

#[test]
fn min_start_of_nothing_is_absent() {
    // an empty collection reports no data, not the answer zero
    assert_eq!(advent::garden::min_start(&vec![]), None);
    assert_eq!(
        advent::garden::min_start(&vec![
            GardenRange {
                start: 7,
                length: 2
            },
            GardenRange {
                start: 3,
                length: 1
            }
        ]),
        Some(3)
    );
}
