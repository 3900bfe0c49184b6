use oxi_gen::analysis::{find_unproductive, first_sets, least_set, stranded_set};
use oxi_gen::automaton::Automaton;
use oxi_gen::error::{CompileError, Conflict};
use oxi_gen::generator::{compile, generate, ParseTables, Warning};
use oxi_gen::grammar::OxiSyntax;
use oxi_gen::items::Items;
use oxi_gen::lookahead::lookaheads;
use oxi_gen::rules::{find_name, Rule, Rules};
use oxi_gen::table::Action;

/// Runs the tables over a sequence of terminal names and lists the
/// production arms in the order in which they are reduced.
fn drive(tables: &ParseTables, input: &[&str]) -> Result<Vec<(usize, usize)>, usize> {
    let names = &tables.rules.names;
    let first_terminal = tables.rules.nonterminals;
    let end = names.len() - first_terminal;
    let mut stack = vec![0usize];
    let mut reduced = Vec::new();
    let mut at = 0;
    loop {
        let column = if at < input.len() {
            find_name(names, &input[at].to_string()).unwrap() - first_terminal
        } else {
            end
        };
        match tables.action[*stack.last().unwrap()][column] {
            Action::Shift(state) => {
                stack.push(state);
                at += 1;
            }
            Action::Reduce(r) => {
                let rule = &tables.rules.rules[r];
                for _ in 0..rule.rhs.len() {
                    stack.pop();
                }
                let state = tables.goto[*stack.last().unwrap()][rule.lhs].unwrap();
                stack.push(state);
                reduced.push((rule.production, rule.arm));
            }
            Action::Accept => return Ok(reduced),
            Action::Error => return Err(at),
        }
    }
}

const EXPRESSIONS: &str = "
    %name parser
    %public
    %token_type Token
    %start Exp

    %left times
    %left plus

    Exp: Box<Exp>
      = Term { $1 }
      | Exp Plus Term { Box::new(Exp::Add($1, $3)) }
      ;

    Term: Box<Exp>
      = Factor { $1 }
      | Term Times Factor { Box::new(Exp::Mult($1, $3)) }
      ;

    Factor: Box<Exp>
      = int { Exp::Int($1) }
      | var { Exp::Var($1) }
      | OpenParen Exp CloseParen { $2 }
      ;
";

#[test]
fn simple_featured_grammar() {
    let compiled = compile(EXPRESSIONS).unwrap();
    assert_eq!(compiled.syntax.config.name, "parser");
    assert!(compiled.syntax.config.public);
    assert_eq!(compiled.syntax.config.token_type, "Token");
    assert_eq!(compiled.syntax.config.start_production, "Exp");
    assert_eq!(compiled.syntax.productions.len(), 3);
    assert_eq!(compiled.syntax.productions[0].typ, "Box < Exp >");
    assert_eq!(compiled.syntax.precedence.levels.len(), 2);
    let tables = &compiled.tables;
    assert_eq!(
        tables.rules.names,
        vec!["Exp", "Term", "Factor", "Plus", "Times", "int", "var", "OpenParen", "CloseParen"]
    );
    assert_eq!(tables.rules.nonterminals, 3);
    assert_eq!(tables.rules.rules.len(), 8);
    assert_eq!(tables.states(), 13);
    assert_eq!(tables.stranded, vec![false, false, false]);
    assert!(tables.ambiguous.iter().all(|row| row.iter().all(|cell| !cell)));
}

#[test]
fn times_is_grouped_before_plus() {
    let compiled = compile(EXPRESSIONS).unwrap();
    let reduced = drive(&compiled.tables, &["int", "Plus", "int", "Times", "int"]).unwrap();
    assert_eq!(
        reduced,
        vec![
            (2, 0), // Factor := int
            (1, 0), // Term := Factor
            (0, 0), // Exp := Term
            (2, 0), // Factor := int
            (1, 0), // Term := Factor
            (2, 0), // Factor := int
            (1, 1), // Term := Term Times Factor
            (0, 1), // Exp := Exp Plus Term
        ]
    );
    assert_eq!(drive(&compiled.tables, &["int", "Plus", "Plus"]), Err(2));
    assert_eq!(
        drive(&compiled.tables, &["OpenParen", "var", "CloseParen"]).unwrap(),
        vec![(2, 1), (1, 0), (0, 0), (2, 2), (1, 0), (0, 0)]
    );
}

#[test]
fn smallest_tables() {
    let compiled = compile("%token_type T S: u8 = x { $1 };").unwrap();
    let tables = compiled.tables;
    assert_eq!(tables.rules.names, vec!["S", "x"]);
    assert_eq!(
        tables.rules.rules,
        vec![
            Rule { lhs: usize::MAX, rhs: vec![0], production: 1, arm: 0 },
            Rule { lhs: 0, rhs: vec![1], production: 0, arm: 0 },
        ]
    );
    assert_eq!(
        tables.action,
        vec![
            vec![Action::Shift(2), Action::Error],
            vec![Action::Error, Action::Accept],
            vec![Action::Error, Action::Reduce(1)],
        ]
    );
    assert_eq!(tables.goto, vec![vec![Some(1)], vec![None], vec![None]]);
    assert_eq!(tables.ambiguous, vec![vec![false, false]; 3]);
    assert_eq!(tables.stranded, vec![false]);
}

#[test]
fn rebuilding_gives_the_same_tables() {
    let first = compile(EXPRESSIONS).unwrap();
    let second = compile(EXPRESSIONS).unwrap();
    assert_eq!(first, second);
    let syntax = OxiSyntax::parse(EXPRESSIONS).unwrap();
    assert_eq!(generate(&syntax), generate(&syntax));
    assert_eq!(generate(&syntax).unwrap(), first.tables);
}

const AMBIGUOUS: &str = "
    E: u8 = E Plus E { $1 + $3 } | E Times E { $1 * $3 } | E Pow E { p($1, $3) } | E Eq E { e($1, $3) } | num { $1 };
";

#[test]
fn conflict_without_precedence_is_fatal() {
    let text = format!("%token_type T {}", AMBIGUOUS);
    match compile(&text) {
        Err(CompileError::UnresolvableConflict(Conflict { reduce_rule, shift_rule, token, .. })) => {
            assert_eq!(reduce_rule, 1);
            assert_eq!(shift_rule, 1);
            assert_eq!(token, "Plus");
        }
        other => panic!("a conflict was expected, not {:?}", other),
    }
}

#[test]
fn precedence_without_associativity_settles_no_tie() {
    let text = format!("%token_type T %precedence Eq %left Plus %left Times %right Pow {}", AMBIGUOUS);
    match compile(&text) {
        Err(CompileError::UnresolvableConflict(Conflict { reduce_rule, token, .. })) => {
            assert_eq!(reduce_rule, 4);
            assert_eq!(token, "Eq");
        }
        other => panic!("a conflict was expected, not {:?}", other),
    }
}

#[test]
fn precedence_and_associativity_settle_conflicts() {
    let text = format!("%token_type T %nonassoc Eq %left Plus %left Times %right Pow {}", AMBIGUOUS);
    let tables = compile(&text).unwrap().tables;
    // a later level binds tighter
    assert_eq!(
        drive(&tables, &["num", "Plus", "num", "Times", "num"]).unwrap(),
        vec![(0, 4), (0, 4), (0, 4), (0, 1), (0, 0)]
    );
    assert_eq!(
        drive(&tables, &["num", "Times", "num", "Plus", "num"]).unwrap(),
        vec![(0, 4), (0, 4), (0, 1), (0, 4), (0, 0)]
    );
    // left: the first operator is reduced first
    assert_eq!(
        drive(&tables, &["num", "Plus", "num", "Plus", "num"]).unwrap(),
        vec![(0, 4), (0, 4), (0, 0), (0, 4), (0, 0)]
    );
    // right: the last operator is reduced first
    assert_eq!(
        drive(&tables, &["num", "Pow", "num", "Pow", "num"]).unwrap(),
        vec![(0, 4), (0, 4), (0, 4), (0, 2), (0, 2)]
    );
    // nonassoc: a second operator is a syntax error
    assert_eq!(drive(&tables, &["num", "Eq", "num", "Eq", "num"]), Err(3));
    assert!(drive(&tables, &["num", "Eq", "num"]).is_ok());
}

#[test]
fn precedence_only_level_overrides_a_rule() {
    // The rule of Neg ends in no terminal of its own rank: the level that
    // lists the production ranks it above Minus.
    let text = "
        %token_type T
        %left Minus
        %precedence Neg
        %start E
        E: i8 = E Minus E { $1 - $3 } | Neg { $1 } | num { $1 };
        Neg: i8 = Minus E { -$2 };
    ";
    let tables = compile(text).unwrap().tables;
    assert_eq!(
        drive(&tables, &["Minus", "num", "Minus", "num"]).unwrap(),
        vec![(0, 2), (1, 0), (0, 1), (0, 2), (0, 0)]
    );
}

#[test]
fn reduce_reduce_takes_the_first_rule_and_marks_the_cell() {
    let tables = compile("%token_type T S: u8 = A { $1 } | B { $1 }; A: u8 = x { $1 }; B: u8 = x { $1 };")
        .unwrap()
        .tables;
    let marked: Vec<(usize, usize)> = tables
        .ambiguous
        .iter()
        .enumerate()
        .flat_map(|(s, row)| row.iter().enumerate().filter(|(_, m)| **m).map(move |(k, _)| (s, k)))
        .collect();
    assert_eq!(marked.len(), 1);
    let (state, column) = marked[0];
    assert_eq!(column, 1);
    assert_eq!(tables.action[state][column], Action::Reduce(3));
    assert_eq!(tables.warnings(), vec![Warning::ReduceReduce(state, column)]);
    assert_eq!(drive(&tables, &["x"]).unwrap(), vec![(1, 0), (0, 0)]);
}

#[test]
fn unreachable_nonterminal_is_marked() {
    let tables = compile("%token_type T S: u8 = x { $1 }; U: u8 = y S { $2 }; V: u8 = U { $1 };")
        .unwrap()
        .tables;
    assert_eq!(tables.stranded, vec![false, true, true]);
    assert_eq!(tables.warnings(), vec![Warning::Unreachable(1), Warning::Unreachable(2)]);
}

#[test]
fn recursion_without_base_case_is_rejected() {
    assert_eq!(
        compile("%token_type T A: u8 = A X { $1 };").map(|_| ()),
        Err(CompileError::NonTerminatingProduction("A".to_string()))
    );
    assert_eq!(
        compile("%token_type T S: u8 = x { $1 } | B { $1 }; B: u8 = C y { $1 }; C: u8 = B { $1 };")
            .map(|_| ()),
        Err(CompileError::NonTerminatingProduction("B".to_string()))
    );
}

#[test]
fn empty_arms_are_nullable() {
    let syntax = OxiSyntax::parse(
        "%token_type T S: u8 = A B c { $3 }; A: u8 = { 0 } | a { $1 }; B: u8 = A A { $1 } | b { $1 };",
    )
    .unwrap();
    let rules = Rules::build(&syntax.productions, &syntax.config.start_production).unwrap();
    assert_eq!(rules.names, vec!["S", "A", "B", "c", "a", "b"]);
    assert_eq!(find_unproductive(&rules), None);
    let nullable = least_set(&rules, false);
    assert_eq!(nullable, vec![false, true, true]);
    assert_eq!(least_set(&rules, true), vec![true, true, true]);
    let first = first_sets(&rules, &nullable);
    assert_eq!(
        first,
        vec![
            vec![true, true, true, false],
            vec![false, true, false, false],
            vec![false, true, true, false],
        ]
    );
    assert_eq!(stranded_set(&rules), vec![false, false, false]);
    // reducing the empty arm of A or shifting `a`: no precedence settles it
    assert_eq!(
        generate(&syntax),
        Err(CompileError::UnresolvableConflict(Conflict {
            state: 0,
            reduce_rule: 2,
            shift_rule: 3,
            token: "a".to_string(),
        }))
    );
}

#[test]
fn empty_arms_are_reduced_on_their_lookahead() {
    let tables =
        compile("%token_type T S: u8 = A B c { $3 }; A: u8 = { 0 } | a { $1 }; B: u8 = { 1 } | b { $1 };")
            .unwrap()
            .tables;
    assert_eq!(drive(&tables, &["c"]).unwrap(), vec![(1, 0), (2, 0), (0, 0)]);
    assert_eq!(drive(&tables, &["a", "b", "c"]).unwrap(), vec![(1, 1), (2, 1), (0, 0)]);
    assert_eq!(drive(&tables, &["a", "c"]).unwrap(), vec![(1, 1), (2, 0), (0, 0)]);
    assert_eq!(drive(&tables, &["b", "a", "c"]), Err(1));
}

#[test]
fn lookaheads_tell_reductions_apart() {
    // LALR(1) but not SLR(1): after `b` with `d` read, `e` reduces to A only.
    let syntax = OxiSyntax::parse(
        "%token_type T S: u8 = A a { 1 } | b A c { 2 } | d c { 3 } | b d a { 4 }; A: u8 = d { 5 };",
    )
    .unwrap();
    let rules = Rules::build(&syntax.productions, &syntax.config.start_production).unwrap();
    let items = Items::build(&rules);
    assert_eq!(items.rule.len(), 2 + 3 + 4 + 3 + 4 + 2);
    let automaton = Automaton::build(&rules, &items);
    assert_eq!(automaton.states.len(), automaton.trans.len());
    let nullable = least_set(&rules, false);
    let first = first_sets(&rules, &nullable);
    let la = lookaheads(&rules, &items, &nullable, &first, &automaton);
    assert_eq!(la.len(), automaton.states.len());
    let tables = generate(&syntax).unwrap();
    assert!(tables.ambiguous.iter().all(|row| row.iter().all(|cell| !cell)));
    assert_eq!(drive(&tables, &["d", "a"]).unwrap(), vec![(1, 0), (0, 0)]);
    assert_eq!(drive(&tables, &["b", "d", "c"]).unwrap(), vec![(1, 0), (0, 1)]);
    assert_eq!(drive(&tables, &["d", "c"]).unwrap(), vec![(0, 2)]);
    assert_eq!(drive(&tables, &["b", "d", "a"]).unwrap(), vec![(0, 3)]);
}
