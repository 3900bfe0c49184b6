use oxi_gen::config::OxiConfig;
use oxi_gen::error::{BadPlaceholder, CompileError};
use oxi_gen::grammar::OxiSyntax;
use oxi_gen::precedence::PrecedenceTable;
use oxi_gen::syntax::{
    parse_terms, parse_token_terms, ConfigOption, LevelKind, Production, ProductionArm, Symbol,
    Term,
};
use oxi_gen::token::{Token, TokenKind};

fn ident(text: &str) -> Token {
    Token { kind: TokenKind::Ident, text: text.to_string(), joint: false }
}

fn punct(text: &str) -> Token {
    Token { kind: TokenKind::Punct, text: text.to_string(), joint: false }
}

/// A grammar of directives alone parses, and is then rejected for want of
/// productions.
#[test]
fn it_works() {
    let terms = parse_terms("%token_type Token\n%start Token").unwrap();
    assert_eq!(
        terms,
        vec![
            Term::ConfigOption(ConfigOption::TokenType("Token".to_string())),
            Term::ConfigOption(ConfigOption::Start("Token".to_string())),
        ]
    );
    assert_eq!(OxiConfig::from_terms(&terms), Err(CompileError::NoProductions));
}

/// The parser's name can be given; without productions the grammar is
/// still rejected.
#[test]
fn can_give_name_option() {
    let terms = parse_terms("%name parser\n%token_type Token\n%start Token").unwrap();
    assert_eq!(terms.len(), 3);
    assert_eq!(terms[0], Term::ConfigOption(ConfigOption::Name("parser".to_string())));
    assert_eq!(OxiConfig::from_terms(&terms), Err(CompileError::NoProductions));
    assert_eq!(
        OxiSyntax::parse("%name parser\n%token_type Token\n%start Token"),
        Err(CompileError::NoProductions)
    );
}

#[test]
fn full_featured_grammar() {
    let text = "
    %name parser
    %public
    %token_type Token
    %start Exp

    %token {
      int Token::Number($$)
      var Token::Variable($$)
      '+' Token::Plus
      '*' Token::Times
      '(' Token::OpenParen
      ')' Token::CloseParen
    }

    %left times
    %left plus

    Exp: Exp
      = Term { $1 }
      | Exp '+' Term { Exp::Add($1, $3) }
      ;

    Term: Exp
      = Factor { $1 }
      | Term '*' Factor { Exp::Mult($1, $3) }
      ;

    Factor: Exp
      = int { Exp::Int($1) }
      | var { Exp::Var($1) }
      | '(' Exp ')' { $2 }
      ;
    ";
    assert_eq!(parse_terms(text), Err(CompileError::UnknownDirective("token".to_string())));
}

#[test]
fn empty_text_has_no_productions() {
    assert_eq!(parse_terms(""), Ok(vec![]));
    assert_eq!(OxiSyntax::parse(""), Err(CompileError::NoProductions));
}

#[test]
fn token_type_is_required() {
    assert_eq!(
        OxiSyntax::parse("Exp: u8 = num { $1 };"),
        Err(CompileError::MissingRequiredConfig("token_type".to_string()))
    );
}

#[test]
fn defaults_apply() {
    let g = OxiSyntax::parse("%token_type Token Exp: u8 = num { $1 }; Other: u8 = Exp { $1 };")
        .unwrap();
    assert_eq!(g.config.name, "generated_parser");
    assert!(!g.config.public);
    assert_eq!(g.config.token_type, "Token");
    assert_eq!(g.config.start_production, "Exp");
    assert_eq!(g.productions.len(), 2);
    assert_eq!(g.precedence.levels.len(), 0);
}

#[test]
fn last_write_wins() {
    let g = OxiSyntax::parse(
        "%name one %token_type A %start X %public %name two %token_type B::C %start Y
         X: u8 = a { $1 }; Y: u8 = b { $1 };",
    )
    .unwrap();
    assert_eq!(g.config.name, "two");
    assert!(g.config.public);
    assert_eq!(g.config.token_type, "B :: C");
    assert_eq!(g.config.start_production, "Y");
}

#[test]
fn resolving_twice_gives_the_same_settings() {
    let text = "%name p %token_type T Exp: u8 = num { $1 };";
    let terms = parse_terms(text).unwrap();
    let once = OxiConfig::from_terms(&terms);
    let again = OxiConfig::from_terms(&terms);
    assert_eq!(once, again);
    let mut doubled = parse_terms(text).unwrap();
    doubled.extend(parse_terms(text).unwrap());
    assert_eq!(OxiConfig::from_terms(&doubled), once);
}

#[test]
fn unknown_start_symbol() {
    assert_eq!(
        OxiSyntax::parse("%token_type T %start Nope Exp: u8 = num { $1 };"),
        Err(CompileError::UndefinedSymbol("Nope".to_string()))
    );
}

#[test]
fn shared_precedence_name_is_rejected() {
    let terms = parse_terms("%left plus minus %right pow %nonassoc minus").unwrap();
    assert_eq!(
        PrecedenceTable::from_terms(&terms),
        Err(CompileError::AmbiguousPrecedence("minus".to_string()))
    );
    assert_eq!(
        OxiSyntax::parse("%token_type T %left a %precedence a Exp: u8 = num { $1 };"),
        Err(CompileError::AmbiguousPrecedence("a".to_string()))
    );
}

#[test]
fn precedence_levels_follow_declaration_order() {
    let terms = parse_terms("%left plus minus %right pow %nonassoc eq %precedence neg").unwrap();
    let table = PrecedenceTable::from_terms(&terms).unwrap();
    assert_eq!(table.levels.len(), 4);
    assert_eq!(table.levels[0].kind, LevelKind::Left);
    assert_eq!(table.levels[0].names, vec!["plus".to_string(), "minus".to_string()]);
    assert_eq!(table.levels[1].kind, LevelKind::Right);
    assert_eq!(table.levels[2].kind, LevelKind::NonAssoc);
    assert_eq!(table.levels[3].kind, LevelKind::Precedence);
    assert_eq!(table.rank(&"pow".to_string()), Some(1));
    assert_eq!(table.rank(&"nothing".to_string()), None);
}

#[test]
fn a_list_stops_before_a_production() {
    let terms = parse_terms("%left a b Exp: u8 = num { $1 };").unwrap();
    assert_eq!(terms.len(), 2);
    assert_eq!(
        terms[0],
        Term::ConfigOption(ConfigOption::LeftAssoc(vec!["a".to_string(), "b".to_string()]))
    );
    assert!(terms[0].is_config_option());
    assert!(!terms[0].is_production());
    assert!(terms[1].is_production());
    assert!(terms[0].production().is_none());
    assert_eq!(terms[1].production().unwrap().ident, "Exp");
    assert!(terms[1].config_option().is_none());
}

#[test]
fn production_with_arms() {
    let terms = parse_terms("Exp: Box<Exp> = Term { $1 } | Exp Plus Term { add($1, $3) } | { nil };")
        .unwrap();
    assert_eq!(
        terms,
        vec![Term::Production(Production {
            ident: "Exp".to_string(),
            typ: "Box < Exp >".to_string(),
            arms: vec![
                ProductionArm {
                    symbols: vec![Symbol("Term".to_string())],
                    code: "{ $ 1 }".to_string(),
                },
                ProductionArm {
                    symbols: vec![
                        Symbol("Exp".to_string()),
                        Symbol("Plus".to_string()),
                        Symbol("Term".to_string()),
                    ],
                    code: "{ add ($ 1 , $ 3) }".to_string(),
                },
                ProductionArm { symbols: vec![], code: "{ nil }".to_string() },
            ],
        })]
    );
}

#[test]
fn type_with_equals_sign_inside() {
    let terms = parse_terms("List: Box<dyn Iterator<Item = u8>> = item { $1 };").unwrap();
    match &terms[0] {
        Term::Production(p) => {
            assert_eq!(p.ident, "List");
            assert_eq!(p.typ, "Box < dyn Iterator < Item = u8 >>");
            assert_eq!(p.arms.len(), 1);
        }
        _ => panic!("a production was expected"),
    }
}

#[test]
fn what_is_no_type_is_a_syntax_error() {
    assert_eq!(parse_terms("Exp: 1 + = num { $1 };"), Err(CompileError::SyntaxError(Some(2))));
    assert_eq!(parse_terms("%token_type 1 2"), Err(CompileError::SyntaxError(Some(2))));
}

#[test]
fn syntax_errors_name_the_token() {
    assert_eq!(parse_terms("%"), Err(CompileError::SyntaxError(Some(1))));
    assert_eq!(parse_terms("%name %public"), Err(CompileError::SyntaxError(Some(2))));
    assert_eq!(parse_terms("%left"), Err(CompileError::SyntaxError(Some(2))));
    assert_eq!(parse_terms("Exp = num { $1 };"), Err(CompileError::SyntaxError(Some(1))));
    assert_eq!(parse_terms("Exp: u8 = num ;"), Err(CompileError::SyntaxError(Some(5))));
    assert_eq!(parse_terms("Exp: u8 = num { $1 }"), Err(CompileError::SyntaxError(Some(6))));
    assert_eq!(parse_terms("Exp: u8 = num { $1 } | ;"), Err(CompileError::SyntaxError(Some(7))));
    assert_eq!(parse_terms("; x"), Err(CompileError::SyntaxError(Some(0))));
}

#[test]
fn text_that_is_no_token_sequence() {
    assert_eq!(parse_terms("Exp: u8 = num { $1 ;"), Err(CompileError::SyntaxError(None)));
}

#[test]
fn unknown_directive_is_named() {
    assert_eq!(
        parse_terms("%token_type T %frobnicate x"),
        Err(CompileError::UnknownDirective("frobnicate".to_string()))
    );
}

#[test]
fn terms_from_tokens() {
    let tokens = vec![punct("%"), ident("public"), punct("%"), ident("start"), ident("Exp")];
    assert_eq!(
        parse_token_terms(&tokens),
        Ok(vec![
            Term::ConfigOption(ConfigOption::Public),
            Term::ConfigOption(ConfigOption::Start("Exp".to_string())),
        ])
    );
    assert_eq!(
        Term::parse(&tokens, 2),
        Ok((Term::ConfigOption(ConfigOption::Start("Exp".to_string())), 5))
    );
    assert_eq!(Symbol::parse(&tokens, 1), Ok((Symbol("public".to_string()), 2)));
    assert_eq!(Symbol::parse(&tokens, 0), Err(CompileError::SyntaxError(Some(0))));
    assert_eq!(ConfigOption::parse(&tokens, 0), Ok((ConfigOption::Public, 2)));
    assert_eq!(Production::parse(&tokens, 0), Err(CompileError::SyntaxError(Some(0))));
    assert_eq!(ProductionArm::parse(&tokens, 9), Err(CompileError::SyntaxError(Some(9))));
}

#[test]
fn placeholder_past_the_arm_is_rejected() {
    assert_eq!(
        OxiSyntax::parse("%token_type T A: u8 = x y z { f($1, $5) };"),
        Err(CompileError::PlaceholderOutOfRange(BadPlaceholder {
            production: "A".to_string(),
            arm: 0,
            index: 5,
        }))
    );
    assert_eq!(
        OxiSyntax::parse("%token_type T A: u8 = x { $1 } | x y { g([$2, ($3)]) };"),
        Err(CompileError::PlaceholderOutOfRange(BadPlaceholder {
            production: "A".to_string(),
            arm: 1,
            index: 3,
        }))
    );
    assert_eq!(
        OxiSyntax::parse("%token_type T A: u8 = x { $0 };"),
        Err(CompileError::PlaceholderOutOfRange(BadPlaceholder {
            production: "A".to_string(),
            arm: 0,
            index: 0,
        }))
    );
}

#[test]
fn placeholders_in_range_are_accepted() {
    assert!(OxiSyntax::parse("%token_type T A: u8 = x y z { f($1, [$2], { $3 }, $$, \"$9\") };").is_ok());
    assert_eq!(oxi_gen::placeholder::check_code(&"{ $ 2 }".to_string(), 2), None);
    assert_eq!(oxi_gen::placeholder::check_code(&"{ $ 3 }".to_string(), 2), Some(3));
    assert_eq!(
        oxi_gen::placeholder::check_code(&"{ $ 99999999999999999999999999 }".to_string(), 2),
        Some(usize::MAX)
    );
}
