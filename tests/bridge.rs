use smt_bridge::reply::{classify, is_readable, parse_bindings, parse_value, Verdict};
use smt_bridge::script::{script, script_to_text, Command, Variable};
use smt_bridge::solution::Solution;
use smt_bridge::value::{nibbles_to_bytes, parse_hex, render_hex, Native};
use smt_bridge::UnsatError;

fn text(v: &[u8]) -> String {
    String::from_utf8(v.to_vec()).unwrap()
}

fn var(name: &str, sort: &str) -> Variable {
    Variable { name: name.as_bytes().to_vec(), sort: sort.as_bytes().to_vec() }
}

fn rendered(v: &Native) -> String {
    text(&v.render())
}

#[test]
fn packs_odd_nibble_count() {
    assert_eq!(nibbles_to_bytes(&vec![1, 2, 5]), vec![0x01, 0x25]);
    assert_eq!(text(&render_hex(&vec![1, 2, 5])), "#x125");
}

#[test]
fn packs_even_nibble_count() {
    assert_eq!(nibbles_to_bytes(&vec![1, 2, 5, 5]), vec![0x12, 0x55]);
    assert_eq!(text(&render_hex(&vec![1, 2, 5, 5])), "#x1255");
}

#[test]
fn packs_single_nibble() {
    assert_eq!(nibbles_to_bytes(&vec![7]), vec![0x07]);
    assert_eq!(text(&render_hex(&vec![7])), "#x7");
    assert_eq!(text(&render_hex(&vec![0])), "#x0");
}

#[test]
fn renders_letter_digits_in_lower_case() {
    assert_eq!(text(&render_hex(&vec![10, 11, 15])), "#xabf");
    assert_eq!(text(&render_hex(&vec![12, 13])), "#xcd");
}

#[test]
fn leading_zero_nibbles_are_kept() {
    assert_eq!(text(&render_hex(&vec![0, 1, 2, 3])), "#x0123");
    assert_eq!(text(&render_hex(&vec![0, 0, 1, 2])), "#x0012");
    assert_eq!(text(&render_hex(&vec![0, 1])), "#x01");
    assert_eq!(text(&render_hex(&vec![0, 0, 0])), "#x000");
    assert_eq!(parse_hex(&render_hex(&vec![0, 0, 1, 2])).unwrap(), vec![0, 0, 1, 2]);
}

#[test]
fn hex_round_trip_over_widths() {
    let widths = [1usize, 4, 8, 12, 16];
    for w in widths {
        let n: Vec<u8> = (0..w).map(|i| ((i * 7 + 3) % 16) as u8).collect();
        let back = parse_hex(&render_hex(&n)).unwrap();
        assert_eq!(back, n);
        let z: Vec<u8> = (0..w).map(|i| if i < 2 { 0 } else { (i % 16) as u8 }).collect();
        assert_eq!(parse_hex(&render_hex(&z)).unwrap(), z);
        assert_eq!(render_hex(&n).len(), w + 2);
    }
}

#[test]
fn parse_hex_rejects_other_text() {
    assert_eq!(parse_hex(&b"#x".to_vec()), None);
    assert_eq!(parse_hex(&b"#b01".to_vec()), None);
    assert_eq!(parse_hex(&b"#x1g".to_vec()), None);
    assert_eq!(parse_hex(&b"#xA0".to_vec()), Some(vec![10, 0]));
}

#[test]
fn script_orders_commands() {
    let vars = vec![var("x", "Int"), var("y", "Int")];
    let asserts = vec![b"(> x y)".to_vec(), b"(< y 2)".to_vec()];
    let cs = script(&vars, &asserts);
    assert_eq!(cs.len(), 7);
    assert!(matches!(&cs[0], Command::DeclareConst { symbol, sort } if symbol == b"x" && sort == b"Int"));
    assert!(matches!(&cs[1], Command::DeclareConst { symbol, .. } if symbol == b"y"));
    assert!(matches!(&cs[2], Command::Assert { term } if term == b"(> x y)"));
    assert!(matches!(&cs[3], Command::Assert { term } if term == b"(< y 2)"));
    assert!(matches!(&cs[4], Command::CheckSat));
    assert!(matches!(&cs[5], Command::GetValue { terms } if terms.len() == 2 && terms[0] == b"x" && terms[1] == b"y"));
    assert!(matches!(&cs[6], Command::Exit));
}

#[test]
fn script_text_for_linear_integers() {
    let vars = vec![var("x", "Int"), var("y", "Int")];
    let asserts = vec![
        b"(> x y)".to_vec(),
        b"(< y 2)".to_vec(),
        b"(= (+ x (* 2 y)) 7)".to_vec(),
    ];
    let out = text(&script_to_text(&script(&vars, &asserts)));
    assert_eq!(
        out,
        "(declare-const x Int)\n(declare-const y Int)\n(assert (> x y))\n(assert (< y 2))\n\
         (assert (= (+ x (* 2 y)) 7))\n(check-sat)\n(get-value (x y))\n(exit)\n"
    );
}

#[test]
fn script_text_without_variables() {
    let out = text(&script_to_text(&script(&vec![], &vec![b"true".to_vec()])));
    assert_eq!(out, "(assert true)\n(check-sat)\n(get-value ())\n(exit)\n");
}

#[test]
fn classify_sat_keeps_the_rest() {
    match classify(true, &b"sat\n((x 7)\n (y 0))\n".to_vec()) {
        Verdict::Sat(rest) => assert_eq!(text(&rest), "((x 7)\n (y 0))\n"),
        _ => panic!("expected sat"),
    }
    match classify(true, &b"sat\r\n()".to_vec()) {
        Verdict::Sat(rest) => assert_eq!(text(&rest), "()"),
        _ => panic!("expected sat"),
    }
}

#[test]
fn classify_unsat_and_malformed() {
    assert!(matches!(classify(false, &b"unsat\n".to_vec()), Verdict::Unsat));
    assert!(matches!(classify(true, &b"unsat\n".to_vec()), Verdict::Malformed));
    assert!(matches!(classify(false, &b"sat\n".to_vec()), Verdict::Malformed));
    assert!(matches!(classify(true, &b"".to_vec()), Verdict::Malformed));
    assert!(matches!(classify(false, &b"(error \"line 1\")\n".to_vec()), Verdict::Malformed));
    assert!(matches!(classify(true, &b"unknown\n".to_vec()), Verdict::Malformed));
}

#[test]
fn linear_integers_solution() {
    let sol = Solution::from_reply(true, &b"sat\n((x 7)\n (y 0))\n".to_vec()).unwrap();
    let x: i64 = rendered(&sol.get(&b"x".to_vec()).unwrap()).parse().unwrap();
    let y: i64 = rendered(&sol.get(&b"y".to_vec()).unwrap()).parse().unwrap();
    assert!(x > y);
    assert!(y < 2);
    assert_eq!(x + 2 * y, 7);
    assert_eq!((x, y), (7, 0));
}

#[test]
fn contradiction_is_unsat() {
    assert!(is_readable(false, &b"unsat\n".to_vec()));
    let r = Solution::from_reply(false, &b"unsat\n".to_vec());
    assert!(matches!(r, Err(UnsatError)));
}

#[test]
fn bit_vector_solution_round_trips() {
    let sol = Solution::from_reply(true, &b"sat\n((x #x7)\n (y #x0))\n".to_vec()).unwrap();
    let x = sol.get(&b"x".to_vec()).unwrap();
    let y = sol.get(&b"y".to_vec()).unwrap();
    match (&x, &y) {
        (Native::Hexadecimal(a), Native::Hexadecimal(b)) => {
            assert_eq!(a, &vec![7]);
            assert_eq!(b, &vec![0]);
            let (xa, yb) = (a[0] as u32, b[0] as u32);
            assert!(xa > yb && yb < 2 && (xa + 2 * yb) % 16 == 7);
        }
        _ => panic!("expected bit-vectors"),
    }
    assert_eq!(rendered(&x), "#x7");
    assert_eq!(parse_hex(&x.render()).unwrap(), vec![7]);
    assert_eq!(rendered(&y), "#x0");
}

#[test]
fn twelve_bit_value() {
    let sol = Solution::from_reply(true, &b"sat\n((x #x1ff))\n".to_vec()).unwrap();
    let x = sol.get(&b"x".to_vec()).unwrap();
    assert!(matches!(&x, Native::Hexadecimal(n) if n == &vec![1, 15, 15]));
    assert_eq!(rendered(&x), "#x1ff");
}

#[test]
fn malformed_replies_are_unreadable() {
    assert!(!is_readable(true, &b"".to_vec()));
    assert!(!is_readable(false, &b"".to_vec()));
    assert!(!is_readable(true, &b"unsat\n".to_vec()));
    assert!(!is_readable(false, &b"sat\n((x 1))".to_vec()));
    assert!(!is_readable(false, &b"oops\n".to_vec()));
    assert!(!is_readable(true, &b"unknown\n".to_vec()));
    assert!(!is_readable(true, &b"sat\n".to_vec()));
    assert!(!is_readable(true, &b"sat\n((x 7)".to_vec()));
    assert!(!is_readable(true, &b"sat\n((x 7)) extra".to_vec()));
    assert!(!is_readable(true, &b"sat\n((x (+ 1 2)))".to_vec()));
    assert!(is_readable(true, &b"sat\n((x 7))".to_vec()));
}

#[test]
fn negative_integer_solution() {
    let reply = b"sat\n((x 9)\n (y (- 1)))\n".to_vec();
    assert!(is_readable(true, &reply));
    let sol = Solution::from_reply(true, &reply).unwrap();
    let x: i64 = rendered(&sol.get(&b"x".to_vec()).unwrap()).parse().unwrap();
    let y: i64 = rendered(&sol.get(&b"y".to_vec()).unwrap()).parse().unwrap();
    assert_eq!((x, y), (9, -1));
    assert!(x > y && y < 2 && x + 2 * y == 7);
}

#[test]
fn string_values_with_blanks_and_quotes() {
    let reply = b"sat\n((s \"a b\") (t \"say \"\"hi\"\" (now)\"))".to_vec();
    let sol = Solution::from_reply(true, &reply).unwrap();
    assert!(matches!(sol.get(&b"s".to_vec()), Some(Native::String(v)) if v == b"a b"));
    assert!(matches!(sol.get(&b"t".to_vec()), Some(Native::String(v)) if v == b"say \"hi\" (now)"));
    assert!(!is_readable(true, &b"sat\n((s \"open))".to_vec()));
}

#[test]
fn bindings_come_in_reply_order() {
    let sol = Solution::from_reply(true, &b"sat\n((a 1) (b 2) (c 3))".to_vec()).unwrap();
    for (name, v) in [("a", "1"), ("b", "2"), ("c", "3")] {
        assert_eq!(rendered(&sol.get(&name.as_bytes().to_vec()).unwrap()), v);
    }
    let bs = parse_bindings(&b"((a 1) (b 2) (c 3))".to_vec()).unwrap();
    let names: Vec<&[u8]> = bs.iter().map(|b| b.0.as_slice()).collect();
    assert_eq!(names, vec![&b"a"[..], &b"b"[..], &b"c"[..]]);
}

#[test]
fn unknown_name_is_absent_and_first_binding_wins() {
    let sol = Solution::from_reply(true, &b"sat\n((x 1) (x 2))".to_vec()).unwrap();
    assert_eq!(rendered(&sol.get(&b"x".to_vec()).unwrap()), "1");
    assert!(sol.get(&b"z".to_vec()).is_none());
}

#[test]
fn value_kinds() {
    assert!(matches!(parse_value(&b"42".to_vec()), Some(Native::Numeral(d)) if d == b"42"));
    assert!(matches!(parse_value(&b"1.5".to_vec()), Some(Native::Decimal(d)) if d == b"1.5"));
    assert!(matches!(parse_value(&b"#b0101".to_vec()), Some(Native::Binary(b)) if b == vec![false, true, false, true]));
    assert!(matches!(parse_value(&b"\"abc\"".to_vec()), Some(Native::String(s)) if s == b"abc"));
    assert!(matches!(parse_value(&b"(- 5)".to_vec()), Some(Native::Numeral(d)) if d == b"-5"));
    assert!(matches!(parse_value(&b"( -  12 )".to_vec()), Some(Native::Numeral(d)) if d == b"-12"));
    assert!(parse_value(&b"(-5)".to_vec()).is_none());
    assert!(parse_value(&b"(- x)".to_vec()).is_none());
    assert!(matches!(parse_value(&b"\"\"".to_vec()), Some(Native::String(s)) if s.is_empty()));
    assert!(parse_value(&b"1.".to_vec()).is_none());
    assert!(parse_value(&b".5".to_vec()).is_none());
    assert!(parse_value(&b"x1".to_vec()).is_none());
    assert_eq!(rendered(&parse_value(&b"#b0101".to_vec()).unwrap()), "#b0101");
    assert_eq!(rendered(&parse_value(&b"\"abc\"".to_vec()).unwrap()), "abc");
}

#[test]
fn bindings_allow_blanks() {
    let bs = parse_bindings(&b"  ( ( a  3 )\n\t( b #xf ) )\n".to_vec()).unwrap();
    assert_eq!(bs.len(), 2);
    assert_eq!(bs[0].0, b"a".to_vec());
    assert_eq!(bs[1].0, b"b".to_vec());
    assert!(parse_bindings(&b"()".to_vec()).unwrap().is_empty());
    assert!(parse_bindings(&b"(a 3)".to_vec()).is_none());
}
