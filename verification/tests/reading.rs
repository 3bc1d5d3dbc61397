use chumsky::error::{Rich, RichPattern};
use chumsky::primitive::{choice, end, just};
use chumsky::recursive::recursive;
use chumsky::{extra, text, IterParser, Parser};
use foo_compiler::ast::{Arena, Node, NodeId};
use foo_compiler::error::{Expected, Keyword, ParseError};
use foo_compiler::parser::parse;

fn bits(text: &str) -> u64 {
    text.parse::<f64>().unwrap().to_bits()
}

/// A tree in prefix form.
fn show(nodes: &Arena, id: NodeId) -> String {
    let pair = |op: &str, a: &NodeId, b: &NodeId| {
        format!("({op} {} {})", show(nodes, *a), show(nodes, *b))
    };
    match nodes.get(id) {
        Node::Num(n) => format!("{}", f64::from_bits(*n)),
        Node::Var(name) => name.clone(),
        Node::Neg(a) => format!("(neg {})", show(nodes, *a)),
        Node::Add(a, b) => pair("+", a, b),
        Node::Sub(a, b) => pair("-", a, b),
        Node::Mul(a, b) => pair("*", a, b),
        Node::Div(a, b) => pair("/", a, b),
        Node::Call(name, args) => {
            let args: Vec<String> = args.iter().map(|arg| show(nodes, *arg)).collect();
            format!("(call {name} [{}])", args.join(" "))
        }
        Node::Let { name, rhs, then } => {
            format!("(let {name} {} {})", show(nodes, *rhs), show(nodes, *then))
        }
        Node::Fn { name, args, body, then } => {
            let args = args.join(" ");
            format!("(fn {name} [{args}] {} {})", show(nodes, *body), show(nodes, *then))
        }
    }
}

fn read(source: &str) -> Result<String, ParseError> {
    let mut nodes = Arena::new();
    parse(source, bits, &mut nodes).map(|root| show(&nodes, root))
}

fn tree(source: &str) -> String {
    match read(source) {
        Ok(tree) => tree,
        Err(error) => panic!("{source:?} is refused: {error:?}"),
    }
}

fn refusal(source: &str) -> (usize, Option<char>, Vec<Expected>) {
    match read(source) {
        Ok(tree) => panic!("{source:?} is read as {tree}"),
        Err(error) => (error.at, error.found, error.expected),
    }
}

/// The same language, written down with the combinators of chumsky, which give trees in prefix
/// form.
fn combinators<'src>() -> impl Parser<'src, &'src str, String, extra::Err<Rich<'src, char>>> {
    let ident = text::ascii::ident().padded();
    let expr = recursive(|expr| {
        let int =
            text::int(10).map(|s: &str| format!("{}", s.parse::<f64>().unwrap()));
        let call = ident
            .then(
                expr.clone()
                    .separated_by(just(',').padded())
                    .allow_trailing()
                    .collect::<Vec<String>>()
                    .delimited_by(just('(').padded(), just(')').padded()),
            )
            .map(|(name, args): (&str, Vec<String>)| format!("(call {name} [{}])", args.join(" ")));
        let atom = choice((
            int,
            expr.clone().delimited_by(just('(').padded(), just(')').padded()),
            call,
            ident.map(|name: &str| name.to_string()),
        ))
        .padded();
        let op = |c| just(c).padded();
        let unary = op('-').repeated().foldr(atom, |_, rhs| format!("(neg {rhs})"));
        let product = unary.clone().foldl(
            choice((op('*').to('*'), op('/').to('/'))).then(unary).repeated(),
            |lhs, (op, rhs)| format!("({op} {lhs} {rhs})"),
        );
        product.clone().foldl(
            choice((op('+').to('+'), op('-').to('-'))).then(product).repeated(),
            |lhs, (op, rhs)| format!("({op} {lhs} {rhs})"),
        )
    });
    let decl = recursive(|decl| {
        let variable = text::ascii::keyword("let")
            .padded()
            .ignore_then(ident)
            .then_ignore(just('=').padded())
            .then(expr.clone())
            .then_ignore(just(';').padded())
            .then(decl.clone())
            .map(|((name, rhs), rest): ((&str, String), String)| {
                format!("(let {name} {rhs} {rest})")
            });
        let function = text::ascii::keyword("fn")
            .padded()
            .ignore_then(ident)
            .then(ident.repeated().collect::<Vec<&str>>())
            .then_ignore(just('=').padded())
            .then(expr.clone())
            .then_ignore(just(';').padded())
            .then(decl)
            .map(|(((name, args), body), rest): (((&str, Vec<&str>), String), String)| {
                format!("(fn {name} [{}] {body} {rest})", args.join(" "))
            });
        choice((variable, function, expr)).padded()
    });
    decl.then_ignore(end())
}

fn pattern(expected: &Expected) -> RichPattern<'static, char> {
    match expected {
        Expected::Token(c) => RichPattern::Token((*c).into()),
        Expected::Identifier => RichPattern::Label("identifier".into()),
        Expected::Int => RichPattern::Label("int".into()),
        Expected::Keyword(Keyword::Let) => RichPattern::Identifier("\"let\"".to_string()),
        Expected::Keyword(Keyword::Fn) => RichPattern::Identifier("\"fn\"".to_string()),
        Expected::Any => RichPattern::Any,
        Expected::SomethingElse => RichPattern::SomethingElse,
        Expected::EndOfInput => RichPattern::EndOfInput,
    }
}

/// Holds the reader to the combinators: the same tree, or the same refusal.
fn compare<'src>(
    grammar: &impl Parser<'src, &'src str, String, extra::Err<Rich<'src, char>>>,
    source: &'src str,
) {
    let (output, errors) = grammar.parse(source).into_output_errors();
    match read(source) {
        Ok(tree) => {
            assert_eq!(output, Some(tree), "{source:?}");
            assert!(errors.is_empty(), "{source:?}");
        }
        Err(error) => {
            assert_eq!(output, None, "{source:?}");
            assert_eq!(errors.len(), 1, "{source:?}");
            let start = source.chars().take(error.at).map(char::len_utf8).sum::<usize>();
            let length = error.found.map_or(0, char::len_utf8);
            assert_eq!(errors[0].span().into_range(), start..start + length, "{source:?}");
            assert_eq!(errors[0].found().copied(), error.found, "{source:?}");
            let expected: Vec<RichPattern<'_, char>> = errors[0].expected().cloned().collect();
            let patterns: Vec<RichPattern<'_, char>> = error.expected.iter().map(pattern).collect();
            assert_eq!(expected, patterns, "{source:?}");
        }
    }
}

#[test]
fn numbers_and_names() {
    assert_eq!(tree("0"), "0");
    assert_eq!(tree("42"), "42");
    assert_eq!(tree("9007199254740993"), "9007199254740992");
    assert_eq!(tree("_a1"), "_a1");
    assert_eq!(tree("let"), "let");
    assert_eq!(tree("fn"), "fn");
    assert_eq!(tree("letter"), "letter");
}

#[test]
fn operators_bind_to_the_left_and_products_first() {
    assert_eq!(tree("1 - 2 - 3"), "(- (- 1 2) 3)");
    assert_eq!(tree("8 / 4 / 2"), "(/ (/ 8 4) 2)");
    assert_eq!(tree("1 + 2 * 3"), "(+ 1 (* 2 3))");
    assert_eq!(tree("(1 + 2) * 3"), "(* (+ 1 2) 3)");
    assert_eq!(tree("--1 - -2"), "(- (neg (neg 1)) (neg 2))");
    assert_eq!(tree("-2 * -3"), "(* (neg 2) (neg 3))");
}

#[test]
fn calls_take_lists() {
    assert_eq!(tree("f()"), "(call f [])");
    assert_eq!(tree("f ( 1 , 2 )"), "(call f [1 2])");
    assert_eq!(tree("f(1, 2,)"), "(call f [1 2])");
    assert_eq!(tree("f(g(x), (y))"), "(call f [(call g [x]) y])");
    assert_eq!(refusal("f(,)").0, 2);
    assert_eq!(refusal("f(1,,)").0, 4);
}

#[test]
fn definitions_come_first() {
    assert_eq!(tree("let x = 1; x"), "(let x 1 x)");
    assert_eq!(tree("fn f = 1; f()"), "(fn f [] 1 (call f []))");
    assert_eq!(
        tree("fn add a b = a + b; let x = 2; add(x, 3)"),
        "(fn add [a b] (+ a b) (let x 2 (call add [x 3])))"
    );
    assert_eq!(tree("let let = 1; let"), "(let let 1 let)");
    assert_eq!(tree("let(1)"), "(call let [1])");
}

#[test]
fn spaces_are_those_of_unicode() {
    assert_eq!(tree("\u{3000}1\u{a0}+\n2\t"), "(+ 1 2)");
    assert_eq!(tree(" \u{2028}let\u{85}x=\u{1680}1;x\r\n"), "(let x 1 x)");
    assert_eq!(refusal("1\u{200b}").0, 1);
}

#[test]
fn white_space_only_separates() {
    let program = tree("fn f a b=a*b;let x=12;f(x,-1)");
    assert_eq!(tree("fn f a b = a * b ; let x = 12 ; f ( x , - 1 )"), program);
    assert_eq!(tree("\n\tfn\nf\na\u{2003}b=a*b;let x=\r\n12;f(x,-1)\u{3000} "), program);
    assert!(read("fn fa b=a*b;let x=1 2;f(x,-1)").is_err());
}

#[test]
fn refusals_have_a_reason() {
    for source in ["", "(", ")", "1 2", "let =", "let x", "fn f", "f(1,", "-", "1;", "é", "x = 1"] {
        let (at, found, expected) = refusal(source);
        assert_eq!(source.chars().nth(at), found);
        assert!(!expected.is_empty());
    }
}

#[test]
fn refusals_tell_the_last_place_and_what_it_lacks() {
    assert_eq!(
        refusal(""),
        (
            0,
            None,
            vec![
                Expected::Keyword(Keyword::Let),
                Expected::Keyword(Keyword::Fn),
                Expected::Token('-'),
                Expected::Int,
                Expected::Token('('),
                Expected::Identifier,
            ]
        )
    );
    let (at, found, expected) = refusal("1 + ");
    assert_eq!((at, found), (4, None));
    assert_eq!(
        expected,
        vec![Expected::Token('-'), Expected::Int, Expected::Token('('), Expected::Identifier]
    );
    let (at, found, expected) = refusal("let x = 1");
    assert_eq!((at, found), (9, None));
    assert!(expected.contains(&Expected::Token(';')));
    let (at, found, expected) = refusal("1 2");
    assert_eq!((at, found), (2, Some('2')));
    assert!(expected.contains(&Expected::EndOfInput));
    let (at, found, expected) = refusal("12a");
    assert_eq!((at, found), (2, Some('a')));
    assert_eq!(expected[0], Expected::SomethingElse);
    let (at, _, expected) = refusal("007");
    assert_eq!(at, 1);
    assert!(expected.contains(&Expected::EndOfInput));
    let (at, found, expected) = refusal("(x");
    assert_eq!((at, found), (2, None));
    assert_eq!(expected[0], Expected::Any);
}

#[test]
fn reading_keeps_what_an_arena_holds() {
    let mut nodes = Arena::new();
    let first = parse("1 + x", bits, &mut nodes).unwrap();
    let second = parse("f(2)", bits, &mut nodes).unwrap();
    assert!(parse("(((", bits, &mut nodes).is_err());
    assert_eq!(show(&nodes, first), "(+ 1 x)");
    assert_eq!(show(&nodes, second), "(call f [2])");
}

#[test]
fn numbers_are_read_by_the_caller() {
    let mut nodes = Arena::new();
    let root = parse("12", |text: &str| text.len() as u64, &mut nodes).unwrap();
    assert!(matches!(nodes.get(root), Node::Num(2)));
}

#[test]
fn long_sums_and_rows_of_signs() {
    let ones = vec!["1"; 20000].join("+");
    let mut nodes = Arena::new();
    assert!(parse(&ones, bits, &mut nodes).is_ok());
    let signs = format!("{}1", "-".repeat(20000));
    assert!(parse(&signs, bits, &mut nodes).is_ok());
}

#[test]
fn nodes_are_no_more_than_characters() {
    for source in ["1", "-x", "f(1,2)", "f(1", "let x=1;x", "let x=f(1;", "1*(2", "a(b(c(d"] {
        let mut nodes = Arena::new();
        let _ = parse(source, bits, &mut nodes);
        assert!(count(&nodes) <= source.chars().count(), "{source:?}");
    }
}

/// How many nodes an arena holds.
fn count(nodes: &Arena) -> usize {
    let text = format!("{nodes:?}");
    text.matches("Num(").count() + text.matches("Var(").count() + text.matches("Neg(").count()
        + text.matches("Add(").count()
        + text.matches("Mul(").count()
        + text.matches("Call(").count()
        + text.matches("Sub(").count()
        + text.matches("Div(").count()
        + text.matches("Let {").count()
        + text.matches("Fn {").count()
}

#[test]
fn a_program_leaves_no_node_over() {
    for (source, size) in [
        ("1", 1),
        ("-x", 2),
        ("f(1, 2,)", 3),
        ("1 + 2 * 3 - 4 / 5", 9),
        ("((1))", 1),
        ("let x = 1; fn f a b = a; f(x, x)", 7),
        ("let let = 1; let", 3),
        ("fn(1)", 2),
    ] {
        let mut nodes = Arena::new();
        assert!(parse(source, bits, &mut nodes).is_ok());
        assert_eq!(count(&nodes), size, "{source:?}");
    }
}

#[test]
fn printed_trees_are_read() {
    for (source, prefix) in [
        ("( - ( 1 + ( f ( x , 2 ) * y ) ) ) ", "(neg (+ 1 (* (call f [x 2]) y)))"),
        ("(-(1+(f(x, 2)*y)))", "(neg (+ 1 (* (call f [x 2]) y)))"),
        ("( ( a - b ) / ( - c ) ) ", "(/ (- a b) (neg c))"),
        ("f ( ) ", "(call f [])"),
        (
            "let n = ( 1 + 2 ) ; fn g a b = ( a / b ) ; g ( n , 0 ) ",
            "(let n (+ 1 2) (fn g [a b] (/ a b) (call g [n 0])))",
        ),
    ] {
        assert_eq!(tree(source), prefix);
    }
}

#[test]
fn white_space_between_words_numbers_and_signs_is_nothing() {
    let program = "fn f a=a*02;let x=10;f(x)-1";
    let plain = program.replace("02", "2");
    let chars: Vec<char> = plain.chars().collect();
    let word = |c: char| c.is_ascii_alphanumeric();
    for k in 0..=chars.len() {
        let inside = k > 0 && k < chars.len() && word(chars[k - 1]) && word(chars[k]);
        if !inside {
            let before: String = chars[..k].iter().collect();
            let behind: String = chars[k..].iter().collect();
            assert_eq!(tree(&format!("{before} \n{behind}")), tree(&plain));
        }
    }
    assert!(read(program).is_err());
}

#[test]
fn the_reader_agrees_with_combinators_on_examples() {
    let grammar = combinators();
    for source in [
        "", " ", "1", "0", "00", "01", "10", "x", "x y", "1x", "x1", "(", ")", "()", "(1", "(1)",
        "(1))", "-", "--", "-1", "1-", "1--1", "1+", "1+*", "1*2+3", "1 /", "f(", "f()", "f(1",
        "f(1,", "f(1,)", "f(1,,", "f(,)", "f(1 2)", "f (1) (2)", "f(1*)", "f(1+(2)", "let", "let ",
        "let x", "let x=", "let x=1", "let x=1;", "let x=1;x", "let x=1;x;", "let 1", "let(",
        "let x(1)", "let=1", "fn", "fn f", "fn f=", "fn f=1;", "fn f=1;f()", "fn f a b=a;f(1,2)",
        "fn f a 1", "fn f (", "fnf", "fn 1", "letx=1;x", "let x=(1;x", "let x=f(1;x",
        "let x=1*;x", "fn f a=g(a,;1", "é", "xé", "1é", "(é", "let é=1;1", "\u{3000}(\u{3000}1",
        "let let=1;let", "let fn=1;fn", "fn let=1;let()", "fn fn fn=fn;fn(1)", "x.", "1.5", "a_b",
    ] {
        compare(&grammar, source);
    }
}

#[test]
fn the_reader_agrees_with_combinators_on_random_texts() {
    let pieces = [
        "let ", "fn ", "x", "y", "f", "(", ")", ",", "=", ";", "+", "-", "*", "/", "0", "1", "23",
        " ", "\n", "é", "let", "a1", "\u{3000}", "f(", "x=", "1;", "(1)", "f(1,", ")",
    ];
    let mut state: u64 = 1;
    let mut next = |bound: usize| {
        state = state.wrapping_mul(6364136223846793005).wrapping_add(1442695040888963407);
        ((state >> 33) as usize) % bound
    };
    let sources: Vec<String> = (0..20000)
        .map(|_| {
            let length = next(14);
            (0..length).map(|_| pieces[next(pieces.len())]).collect()
        })
        .collect();
    let grammar = combinators();
    for source in &sources {
        compare(&grammar, source);
    }
}

#[test]
fn the_reader_agrees_with_combinators_on_programs_with_a_flaw() {
    let program = "fn add a b = a + b; fn twice x = add(x, x,); let y = -(3 * 4); twice(y) / 2";
    let chars: Vec<char> = program.chars().collect();
    let mut sources: Vec<String> = Vec::new();
    for i in 0..=chars.len() {
        sources.push(chars[..i].iter().collect());
        sources.push(chars[..i].iter().chain(chars.iter().skip(i + 1)).collect());
        for c in ['(', ')', ';', ',', '1', 'x', '-', '*', ' '] {
            sources.push(chars[..i].iter().chain([c].iter()).chain(chars[i..].iter()).collect());
        }
    }
    let grammar = combinators();
    for source in &sources {
        compare(&grammar, source);
    }
}
