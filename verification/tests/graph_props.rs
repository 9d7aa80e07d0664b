use reter_linhas_com_info_das_chaves::graph::{expand_cte_complementar, expand_cte_nfes, get_nfe_ctes};
use reter_linhas_com_info_das_chaves::keymap::KeyMap;
use reter_linhas_com_info_das_chaves::loader::{cargo_notes_from_lines, complementares_from_lines};

fn key(model: &str, seed: u64) -> String {
    format!("{:020}{}{:022}", seed, model, seed)
}

fn maps_equal(a: &KeyMap, b: &KeyMap) -> bool {
    if a.key_list().len() != b.key_list().len() {
        return false;
    }
    for k in a.key_list() {
        let sa = match a.get(k) {
            Some(s) => s,
            None => return false,
        };
        let sb = match b.get(k) {
            Some(s) => s,
            None => return false,
        };
        if sa.as_vec().len() != sb.as_vec().len() {
            return false;
        }
        for x in sa.as_vec() {
            if !sb.contains(x) {
                return false;
            }
        }
    }
    true
}

#[test]
fn cargo_line_builds_note_map() {
    // A single line holding one transport key and two invoice keys.
    let cte = key("57", 1);
    let n1 = key("55", 2);
    let n2 = key("55", 3);
    let line = format!("junk {} carries {} and {} end", cte, n1, n2);
    let map = cargo_notes_from_lines(&vec![line]);
    assert_eq!(map.key_list().len(), 1);
    let notes = map.get(&cte).expect("cte entry");
    assert_eq!(notes.as_vec().len(), 2);
    assert!(notes.contains(&n1));
    assert!(notes.contains(&n2));
}

#[test]
fn cargo_line_needs_leading_cte_and_some_invoice() {
    let n1 = key("55", 2);
    let cte = key("57", 1);
    // First token is an invoice: the line is dropped.
    let dropped = format!("{} {}", n1, cte);
    assert_eq!(cargo_notes_from_lines(&vec![dropped]).key_list().len(), 0);
    // No invoice follows: the line is dropped.
    let bare = format!("{}", cte);
    assert_eq!(cargo_notes_from_lines(&vec![bare]).key_list().len(), 0);
}

#[test]
fn comp_lines_symmetric_edges() {
    let a = key("57", 1);
    let b = key("57", 2);
    let map = complementares_from_lines(&vec![format!("{},{}", a, b)]);
    assert!(map.get(&a).unwrap().contains(&b));
    assert!(map.get(&b).unwrap().contains(&a));
    // A self pair is rejected.
    let selfpair = complementares_from_lines(&vec![format!("{},{}", a, a)]);
    assert_eq!(selfpair.key_list().len(), 0);
}

#[test]
fn closure_chains_components() {
    // A-B and B-C declared: after closure all three know the other two.
    let a = key("57", 1);
    let b = key("57", 2);
    let c = key("57", 3);
    let mut map = complementares_from_lines(&vec![
        format!("{},{}", a, b),
        format!("{},{}", b, c),
    ]);
    expand_cte_complementar(&mut map);
    for (x, others) in [(&a, [&b, &c]), (&b, [&a, &c]), (&c, [&a, &b])] {
        let s = map.get(x).expect("member entry");
        assert_eq!(s.as_vec().len(), 2);
        for o in others {
            assert!(s.contains(o));
        }
    }
}

#[test]
fn closure_is_idempotent() {
    let a = key("57", 1);
    let b = key("57", 2);
    let c = key("57", 3);
    let d = key("57", 4);
    let lines = vec![
        format!("{},{}", a, b),
        format!("{},{}", b, c),
        format!("{},{}", d, a),
    ];
    let mut once = complementares_from_lines(&lines);
    expand_cte_complementar(&mut once);
    let mut twice = complementares_from_lines(&lines);
    expand_cte_complementar(&mut twice);
    expand_cte_complementar(&mut twice);
    assert!(maps_equal(&once, &twice));
}

#[test]
fn closure_is_symmetric() {
    let a = key("57", 1);
    let b = key("57", 2);
    let c = key("57", 5);
    let mut map = complementares_from_lines(&vec![
        format!("{},{}", a, b),
        format!("{},{}", a, c),
    ]);
    expand_cte_complementar(&mut map);
    for x in [&a, &b, &c] {
        for y in [&a, &b, &c] {
            let forward = map.get(x).map(|s| s.contains(y)).unwrap_or(false);
            let backward = map.get(y).map(|s| s.contains(x)).unwrap_or(false);
            assert_eq!(forward, backward);
        }
    }
}

#[test]
fn closure_components_are_cliques() {
    // Two disjoint components, sizes 3 and 2: members list k-1 others.
    let a = key("57", 1);
    let b = key("57", 2);
    let c = key("57", 3);
    let d = key("57", 6);
    let e = key("57", 7);
    let mut map = complementares_from_lines(&vec![
        format!("{},{}", a, b),
        format!("{},{}", b, c),
        format!("{},{}", d, e),
    ]);
    expand_cte_complementar(&mut map);
    for x in [&a, &b, &c] {
        assert_eq!(map.get(x).unwrap().as_vec().len(), 2);
    }
    for x in [&d, &e] {
        assert_eq!(map.get(x).unwrap().as_vec().len(), 1);
    }
}

#[test]
fn cargo_notes_propagate_to_partners() {
    let a = key("57", 1);
    let b = key("57", 2);
    let n1 = key("55", 3);
    let mut notes = cargo_notes_from_lines(&vec![format!("{} {}", a, n1)]);
    let mut comp = complementares_from_lines(&vec![format!("{},{}", a, b)]);
    expand_cte_complementar(&mut comp);
    expand_cte_nfes(&mut notes, &comp);
    // B inherited A's note; A keeps its own.
    assert!(notes.get(&b).expect("b entry").contains(&n1));
    assert!(notes.get(&a).unwrap().contains(&n1));
}

#[test]
fn inverted_index_maps_notes_to_carriers() {
    let a = key("57", 1);
    let b = key("57", 2);
    let n1 = key("55", 3);
    let notes = cargo_notes_from_lines(&vec![
        format!("{} {}", a, n1),
        format!("{} {}", b, n1),
    ]);
    let inv = get_nfe_ctes(&notes);
    let carriers = inv.get(&n1).expect("note entry");
    assert_eq!(carriers.as_vec().len(), 2);
    assert!(carriers.contains(&a));
    assert!(carriers.contains(&b));
}
