use oxi_gen::automaton::{shift, Automaton};
use oxi_gen::bits::{cleared, cleared_and_one, same_flags};
use oxi_gen::grammar::{collect_productions, declares_name, OxiSyntax};
use oxi_gen::items::{close, Items};
use oxi_gen::lookahead::item_heads;
use oxi_gen::analysis::{first_sets, least_set};
use oxi_gen::precedence::PrecedenceTable;
use oxi_gen::rules::{find_name, Rules};
use oxi_gen::syntax::parse_terms;
use oxi_gen::table::{fill_gotos, rank_of_rule, resolve_cell, Action};
use oxi_gen::token::{render, text_is, Token, TokenKind};

fn rules_of(text: &str) -> (OxiSyntax, Rules) {
    let syntax = OxiSyntax::parse(text).unwrap();
    let rules = Rules::build(&syntax.productions, &syntax.config.start_production).unwrap();
    (syntax, rules)
}

#[test]
fn tokens_are_written_out_with_gaps() {
    let tokens = vec![
        Token { kind: TokenKind::Ident, text: "a".to_string(), joint: false },
        Token { kind: TokenKind::Punct, text: ":".to_string(), joint: true },
        Token { kind: TokenKind::Punct, text: ":".to_string(), joint: false },
        Token { kind: TokenKind::Ident, text: "B".to_string(), joint: false },
        Token { kind: TokenKind::Group, text: "(x)".to_string(), joint: false },
    ];
    assert_eq!(render(&tokens, 0, 5), "a :: B (x)");
    assert_eq!(render(&tokens, 1, 3), "::");
    assert_eq!(render(&tokens, 2, 2), "");
    assert!(text_is(&"left".to_string(), "left"));
    assert!(!text_is(&"left".to_string(), "right"));
}

#[test]
fn flags() {
    assert_eq!(cleared(3), vec![false, false, false]);
    assert_eq!(cleared_and_one(1), vec![false, false]);
    assert!(same_flags(&vec![true, false], &vec![true, false]));
    assert!(!same_flags(&vec![true, false], &vec![true, true]));
    assert!(!same_flags(&vec![true], &vec![true, true]));
}

#[test]
fn productions_are_collected_in_order() {
    let terms = parse_terms("B: u8 = b { $1 }; %public A: u16 = a { $1 }; B: u32 = c { $1 };").unwrap();
    let productions = collect_productions(&terms);
    let names: Vec<&str> = productions.iter().map(|p| p.ident.as_str()).collect();
    assert_eq!(names, vec!["B", "A", "B"]);
    assert_eq!(productions[1].copy(), productions[1]);
    assert_eq!(productions[0].arms[0].copy(), productions[0].arms[0]);
    assert!(declares_name(&productions, &"A".to_string()));
    assert!(!declares_name(&productions, &"a".to_string()));
}

#[test]
fn start_type_is_that_of_the_start_production() {
    let syntax =
        OxiSyntax::parse("%token_type T %start B A: u8 = a { $1 }; B: Vec<u8> = A { $1 };").unwrap();
    assert_eq!(syntax.start_type(), Some("Vec < u8 >".to_string()));
}

#[test]
fn productions_of_one_name_share_a_nonterminal() {
    let (_, rules) = rules_of("%token_type T A: u8 = a { $1 }; B: u8 = A b { $1 }; A: u8 = B { $1 };");
    assert_eq!(rules.names, vec!["A", "B", "a", "b"]);
    assert_eq!(rules.nonterminals, 2);
    let sides: Vec<(usize, Vec<usize>, usize, usize)> =
        rules.rules.iter().map(|r| (r.lhs, r.rhs.clone(), r.production, r.arm)).collect();
    assert_eq!(
        sides,
        vec![
            (usize::MAX, vec![0], 3, 0),
            (0, vec![2], 0, 0),
            (1, vec![0, 3], 1, 0),
            (0, vec![1], 2, 0),
        ]
    );
    assert_eq!(find_name(&rules.names, &"b".to_string()), Some(3));
    assert_eq!(find_name(&rules.names, &"c".to_string()), None);
}

#[test]
fn items_and_closure() {
    let (_, rules) = rules_of("%token_type T S: u8 = A a { $1 }; A: u8 = b { $1 } | { 0 };");
    // rules: goal := S, S := A a, A := b, A := (nothing)
    let items = Items::build(&rules);
    assert_eq!(items.rule, vec![0, 0, 1, 1, 1, 2, 2, 3]);
    assert_eq!(items.dot, vec![0, 1, 0, 1, 2, 0, 1, 0]);
    assert_eq!(items.base, vec![0, 2, 5, 7]);
    assert_eq!(items.next_symbol(&rules, 0), Some(0));
    assert_eq!(items.next_symbol(&rules, 3), Some(2));
    assert_eq!(items.next_symbol(&rules, 4), None);
    let mut set = vec![true, false, false, false, false, false, false, false];
    close(&rules, &items, &mut set);
    assert_eq!(set, vec![true, false, true, false, false, true, false, true]);
    let (kernel, any) = shift(&rules, &items, &set, 1);
    assert!(any);
    assert_eq!(kernel, vec![false, false, false, true, false, false, false, false]);
    let (kernel, any) = shift(&rules, &items, &set, 2);
    assert!(!any);
    assert_eq!(kernel, vec![false; 8]);
}

#[test]
fn automaton_states_stand_in_order_of_first_reach() {
    let (_, rules) = rules_of("%token_type T S: u8 = A a { $1 }; A: u8 = b { $1 } | { 0 };");
    let items = Items::build(&rules);
    let automaton = Automaton::build(&rules, &items);
    // symbols: S, A, a, b
    assert_eq!(
        automaton.trans,
        vec![
            vec![Some(1), Some(2), None, Some(3)],
            vec![None, None, None, None],
            vec![None, None, Some(4), None],
            vec![None, None, None, None],
            vec![None, None, None, None],
        ]
    );
    assert_eq!(automaton.origin, vec![(0, 0), (0, 0), (0, 1), (0, 3), (2, 2)]);
    assert_eq!(automaton.states[4], vec![false, false, false, false, true, false, false, false]);
    assert_eq!(
        fill_gotos(&rules, &automaton),
        vec![
            vec![Some(1), Some(2)],
            vec![None, None],
            vec![None, None],
            vec![None, None],
            vec![None, None],
        ]
    );
}

#[test]
fn what_can_follow_inside_a_rule() {
    let (_, rules) = rules_of("%token_type T S: u8 = A B c { $1 }; A: u8 = a { $1 } | { 0 }; B: u8 = b { $1 };");
    // symbols: S, A, B, c, a, b; columns: c, a, b, end
    let nullable = least_set(&rules, false);
    let first = first_sets(&rules, &nullable);
    let items = Items::build(&rules);
    let (heads, vanishes) = item_heads(&rules, &items, &nullable, &first);
    // S := . A B c
    assert_eq!(heads[2], vec![false, true, true, false]);
    // S := A . B c
    assert_eq!(heads[3], vec![false, false, true, false]);
    // S := A B . c
    assert_eq!(heads[4], vec![true, false, false, false]);
    // S := A B c .
    assert_eq!(heads[5], vec![false, false, false, false]);
    assert_eq!(
        vanishes,
        vec![false, true, false, false, false, true, false, true, true, false, true]
    );
}

#[test]
fn ranks_and_cells() {
    let (syntax, rules) = rules_of(
        "%token_type T %left Plus %left Times %precedence E
         S: u8 = E { $1 }; E: u8 = E Plus E { $1 } | num { $1 };",
    );
    let table: &PrecedenceTable = &syntax.precedence;
    // rules: goal, S := E, E := E Plus E, E := num
    assert_eq!(rank_of_rule(&rules, table, 0), None);
    assert_eq!(rank_of_rule(&rules, table, 1), None);
    assert_eq!(rank_of_rule(&rules, table, 2), Some(2));
    assert_eq!(rank_of_rule(&rules, table, 3), Some(2));
    let (syntax, rules) = rules_of(
        "%token_type T %left Plus %left Times
         S: u8 = E { $1 }; E: u8 = E Plus E { $1 } | E Times { $1 } | num { $1 };",
    );
    let table: &PrecedenceTable = &syntax.precedence;
    assert_eq!(rank_of_rule(&rules, table, 2), Some(0));
    assert_eq!(rank_of_rule(&rules, table, 3), Some(1));
    assert_eq!(rank_of_rule(&rules, table, 4), None);
    let items = Items::build(&rules);
    let automaton = Automaton::build(&rules, &items);
    let nullable = least_set(&rules, false);
    let first = first_sets(&rules, &nullable);
    let la = oxi_gen::lookahead::lookaheads(&rules, &items, &nullable, &first, &automaton);
    // columns: Plus, Times, num, end
    assert_eq!(resolve_cell(&rules, &items, table, &automaton, &la, 0, 2).map(|c| c.1), Some(false));
    match resolve_cell(&rules, &items, table, &automaton, &la, 0, 2) {
        Some((Action::Shift(_), false)) => {}
        other => panic!("a shift was expected, not {:?}", other),
    }
    assert_eq!(
        resolve_cell(&rules, &items, table, &automaton, &la, 0, 3),
        Some((Action::Error, false))
    );
}
