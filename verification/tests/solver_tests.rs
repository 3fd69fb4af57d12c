use std::cmp::Ordering;
use gauss_solver::display::{format_cell, step_rows};
use gauss_solver::gauss::{format_multiplier, gaussian_elimination, swap_label, OpType};
use gauss_solver::lexer::{tokenize, Token};
use gauss_solver::matrix::AugmentedMatrix;
use gauss_solver::parser::{parse_equation, try_parse_equation, NormalizedEquation};
use gauss_solver::rational::Rational;
use gauss_solver::solution::{compute_solution, Solution};
use gauss_solver::solver::{format_normalized_eq, solve, try_solve, CellVal};

fn r(n: i128, d: i128) -> Rational {
    Rational::new(n, d)
}

fn terms(eq: &NormalizedEquation) -> Vec<(String, i128, i128)> {
    eq.terms.iter().map(|(v, c)| (v.clone(), c.num, c.den)).collect()
}

fn lines(v: &[&str]) -> Vec<String> {
    v.iter().map(|s| s.to_string()).collect()
}

// ---------------------------------------------------------------- rationals

#[test]
fn rational_new_reduces_and_moves_sign() {
    assert_eq!(r(6, -4), Rational { num: -3, den: 2 });
    assert_eq!(r(-6, -4), Rational { num: 3, den: 2 });
    assert_eq!(r(0, -7), Rational { num: 0, den: 1 });
    assert_eq!(r(5, 1), Rational { num: 5, den: 1 });
    assert_eq!(r(i128::MAX, i128::MAX), Rational { num: 1, den: 1 });
}

#[test]
fn rational_try_new_refuses_what_new_cannot_build() {
    assert_eq!(Rational::try_new(1, 0), None);
    assert_eq!(Rational::try_new(i128::MIN, 1), None);
    assert_eq!(Rational::try_new(1, i128::MIN), None);
    assert_eq!(Rational::try_new(2, i128::MIN), Some(Rational { num: -1, den: 1 << 126 }));
    assert_eq!(Rational::try_new(4, 6), Some(Rational { num: 2, den: 3 }));
}

#[test]
fn rational_normalize_in_place() {
    let mut x = Rational { num: 10, den: -15 };
    x.normalize();
    assert_eq!(x, Rational { num: -2, den: 3 });
    let mut z = Rational { num: 0, den: 5 };
    z.normalize();
    assert_eq!(z, Rational { num: 0, den: 1 });
    let mut w = Rational { num: -5, den: 0 };
    w.normalize();
    assert_eq!(w, Rational { num: -1, den: 0 });
}

#[test]
fn rational_arithmetic_exact_values() {
    assert_eq!(r(1, 2).add(r(1, 3)), r(5, 6));
    assert_eq!(r(1, 2).sub(r(1, 3)), r(1, 6));
    assert_eq!(r(2, 3).mul(r(3, 4)), r(1, 2));
    assert_eq!(r(2, 3).div(r(4, 9)), r(3, 2));
    assert_eq!(r(2, 3).neg(), r(-2, 3));
    assert_eq!(r(-2, 3).abs(), r(2, 3));
    assert_eq!(Rational::sum(&vec![r(1, 2), r(1, 3), r(1, 6)]), Rational::one());
    assert_eq!(Rational::sum(&vec![]), Rational::zero());
}

#[test]
fn rational_checked_operations_report_overflow() {
    let big = Rational::from_int(i128::MAX);
    assert_eq!(big.checked_add(Rational::one()), None);
    assert_eq!(big.checked_mul(Rational::from_int(2)), None);
    assert_eq!(Rational::one().checked_div(Rational::zero()), None);
    assert_eq!(Rational { num: i128::MIN, den: 1 }.checked_neg(), None);
    assert_eq!(r(1, 2).checked_add(r(1, 2)), Some(Rational::one()));
}

#[test]
fn rational_predicates() {
    assert!(Rational::zero().is_zero());
    assert!(Rational::one().is_one());
    assert!(r(-1, 2).is_negative());
    assert!(r(4, 2).is_integer());
    assert!(!r(1, 2).is_integer());
}

#[test]
fn rational_display_text() {
    assert_eq!(r(-3, 4).to_display_string(), "-3/4");
    assert_eq!(r(3, 4).to_display_string(), "3/4");
    assert_eq!(r(-7, 1).to_display_string(), "-7");
    assert_eq!(Rational { num: 3, den: -4 }.to_display_string(), "3/-4");
}

#[test]
fn rational_cmp_by_value() {
    assert_eq!(r(1, 3).cmp(&r(1, 2)), Ordering::Less);
    assert_eq!(r(2, 4).cmp(&r(1, 2)), Ordering::Equal);
    assert_eq!(r(-1, 2).partial_cmp(&r(-2, 3)), Some(Ordering::Greater));
}

#[test]
fn rational_laws_on_values() {
    // commutativity, identities, cancellation
    let a = r(7, 12);
    let b = r(-5, 18);
    assert_eq!(a.add(b), b.add(a));
    assert_eq!(a.mul(b), b.mul(a));
    assert_eq!(a.add(Rational::zero()), a);
    assert_eq!(a.mul(Rational::one()), a);
    assert_eq!(a.sub(a), Rational::zero());
    assert_eq!(a.div(a), Rational::one());
    assert_eq!(a.neg().neg(), a);
    assert_eq!(Rational::new(a.num * 3, a.den * 3), a);
}

// ---------------------------------------------------------------- lexer / parser

#[test]
fn tokenize_numbers_identifiers_operators() {
    let t = tokenize("12x_1 + 3 = y").unwrap();
    assert!(matches!(t[0], Token::Number(12)));
    assert!(matches!(&t[1], Token::Ident(s) if s == "x_1"));
    assert!(matches!(t[2], Token::Plus));
    assert!(matches!(t[3], Token::Number(3)));
    assert!(matches!(t[4], Token::Equals));
    assert!(matches!(&t[5], Token::Ident(s) if s == "y"));
    assert_eq!(t.len(), 6);
}

#[test]
fn tokenize_errors() {
    assert_eq!(tokenize("x = 1 #").unwrap_err(), "Unerwartetes Zeichen: '#'");
    let long = "x = 999999999999999999999999999999999999999999";
    assert_eq!(
        tokenize(long).unwrap_err(),
        "Ungültige Zahl: 999999999999999999999999999999999999999999"
    );
    // i128::MAX itself is a number
    assert!(tokenize("170141183460469231731687303715884105727 = x").is_ok());
    assert!(tokenize("170141183460469231731687303715884105728 = x").is_err());
}

#[test]
fn tokenize_skips_exactly_the_whitespace_of_std() {
    for u in 0u32..0x3100 {
        let Some(c) = char::from_u32(u) else { continue };
        let text = format!("1{}=", c);
        let skipped = match tokenize(&text) {
            Ok(ts) => ts.len() == 2 && matches!(ts[0], Token::Number(1)) && matches!(ts[1], Token::Equals),
            Err(_) => false,
        };
        assert_eq!(skipped, c.is_whitespace(), "U+{:04X}", u);
    }
}

#[test]
fn parse_simple_equation() {
    let eq = parse_equation("2x + 3y = 5").unwrap();
    assert_eq!(terms(&eq), vec![("x".to_string(), 2, 1), ("y".to_string(), 3, 1)]);
    assert_eq!(eq.constant, r(5, 1));
}

#[test]
fn parse_moves_variables_left_and_constants_right() {
    let eq = parse_equation("1x + 2 + 3y = 2i + 4").unwrap();
    assert_eq!(
        terms(&eq),
        vec![("i".to_string(), -2, 1), ("x".to_string(), 1, 1), ("y".to_string(), 3, 1)]
    );
    assert_eq!(eq.constant, r(2, 1));
    assert_eq!(format_normalized_eq(&eq), "-2i + x + 3y = 2");
}

#[test]
fn parse_products_and_quotients() {
    let eq = parse_equation("1*6x + 3/5y - 2/7i = 4*6-2").unwrap();
    assert_eq!(
        terms(&eq),
        vec![("i".to_string(), -2, 7), ("x".to_string(), 6, 1), ("y".to_string(), 3, 5)]
    );
    assert_eq!(eq.constant, r(22, 1));
    assert_eq!(format_normalized_eq(&eq), "-2/7i + 6x + 3/5y = 22");
}

#[test]
fn parse_drops_cancelled_variables() {
    let eq = parse_equation("x + y = x + 2").unwrap();
    assert_eq!(terms(&eq), vec![("y".to_string(), 1, 1)]);
    assert_eq!(eq.constant, r(2, 1));
    let eq = parse_equation("x = x").unwrap();
    assert!(eq.terms.is_empty());
    assert_eq!(format_normalized_eq(&eq), "0 = 0");
}

#[test]
fn parse_leading_minus_and_repeated_variable() {
    let eq = parse_equation("-x + 2x - 3 = 0").unwrap();
    assert_eq!(terms(&eq), vec![("x".to_string(), 1, 1)]);
    assert_eq!(eq.constant, r(3, 1));
}

#[test]
fn parse_errors() {
    assert_eq!(parse_equation("x = ").unwrap_err(), "Unerwartetes Ende des Ausdrucks");
    assert_eq!(parse_equation("").unwrap_err(), "Unerwartetes Ende des Ausdrucks");
    assert_eq!(
        parse_equation("x + = 1").unwrap_err(),
        "Zahl oder Variable erwartet, erhalten: Equals"
    );
    assert_eq!(parse_equation("x y = 1").unwrap_err(), "'=' in der Gleichung erwartet");
    assert_eq!(parse_equation("x + 1").unwrap_err(), "'=' in der Gleichung erwartet");
    assert_eq!(
        parse_equation("x = 1 2").unwrap_err(),
        "Unerwartetes Token nach Gleichung: Number(2)"
    );
    assert_eq!(
        parse_equation("x = y z").unwrap_err(),
        "Unerwartetes Token nach Gleichung: Ident(\"z\")"
    );
    assert_eq!(
        parse_equation("x * y = 1").unwrap_err(),
        "Nicht-linearer Term: Variable multipliziert mit Variable"
    );
    assert_eq!(
        parse_equation("x / y = 1").unwrap_err(),
        "Nicht-linearer Term: Variable geteilt durch Variable"
    );
    assert_eq!(parse_equation("x = 1 ?").unwrap_err(), "Unerwartetes Zeichen: '?'");
}

#[test]
fn swapping_the_sides_negates_the_normal_form() {
    let a = parse_equation("1x + 2 + 3y = 2i + 4").unwrap();
    let b = parse_equation("2i + 4 = 1x + 2 + 3y").unwrap();
    assert_eq!(
        terms(&b),
        vec![("i".to_string(), 2, 1), ("x".to_string(), -1, 1), ("y".to_string(), -3, 1)]
    );
    assert_eq!(b.constant, r(-2, 1));
    for ((va, ca), (vb, cb)) in a.terms.iter().zip(b.terms.iter()) {
        assert_eq!(va, vb);
        assert_eq!((cb.num, cb.den), (-ca.num, ca.den));
    }
    assert_eq!((b.constant.num, b.constant.den), (-a.constant.num, a.constant.den));
}

#[test]
fn normal_form_holds_exactly_where_the_line_holds() {
    // 2x + 3 = x + 5 becomes x = 2: true for x = 2, false for x = 3.
    let eq = parse_equation("2x + 3 = x + 5").unwrap();
    assert_eq!(terms(&eq), vec![("x".to_string(), 1, 1)]);
    assert_eq!(eq.constant, r(2, 1));
    for x in [2i128, 3] {
        let line_holds = 2 * x + 3 == x + 5;
        let (c, k) = (eq.terms[0].1, eq.constant);
        let normal_holds = c.num * x * k.den == k.num * c.den;
        assert_eq!(line_holds, normal_holds);
    }
}

#[test]
fn parse_division_by_zero_is_reported_as_none() {
    assert!(try_parse_equation("x/0 = 1").is_none());
    assert!(try_parse_equation("1/0 = x").is_none());
}

// ---------------------------------------------------------------- matrix and elimination

#[test]
fn from_equations_puts_each_name_in_its_sorted_column() {
    let eqs = vec![parse_equation("z = 1").unwrap(), parse_equation("a + z = 2").unwrap()];
    let (m, vars) = AugmentedMatrix::from_equations(&eqs);
    assert_eq!(vars, vec!["a".to_string(), "z".to_string()]);
    assert_eq!(m.vars, vars);
    assert_eq!((m.rows, m.cols), (2, 2));
    // column 0 is a, column 1 is z
    assert_eq!(m.data[0], vec![r(0, 1), r(1, 1), r(1, 1)]);
    assert_eq!(m.data[1], vec![r(1, 1), r(1, 1), r(2, 1)]);
}

#[test]
fn solve_names_introduced_out_of_order() {
    let resp = solve(lines(&["y = 1", "x = 2"])).unwrap();
    assert_eq!(resp.solution_type, "unique");
    assert_eq!(resp.solution_vars, vec!["x", "y"]);
    assert_eq!(resp.solution_values, vec!["2", "1"]);
    let resp = solve(lines(&["z = 1", "a + z = 2"])).unwrap();
    assert_eq!(resp.solution_vars, vec!["a", "z"]);
    assert_eq!(resp.solution_values, vec!["1", "1"]);
}

#[test]
fn labels_and_multipliers() {
    assert_eq!(swap_label(2, 1), "R3 ↔ R2");
    assert_eq!(format_multiplier(&r(-4, 1)), "-4");
    assert_eq!(format_multiplier(&r(-4, 3)), "-4/3");
}

#[test]
fn elimination_with_swap() {
    let eqs: Vec<NormalizedEquation> = ["x + y + z = 6", "x + y + 2z = 9", "x + 2y + 3z = 14"]
        .iter()
        .map(|s| parse_equation(s).unwrap())
        .collect();
    let (m, _) = AugmentedMatrix::from_equations(&eqs);
    let (steps, sol) = gaussian_elimination(&m);
    assert_eq!(steps.len(), 4);
    assert_eq!(steps[0].matrix.data, m.data);
    assert!(steps[0].row_ops.iter().all(|o| o.op_type == OpType::NoChange));
    // first elimination: R2 := 1*R2 - 1*R1
    assert_eq!(steps[1].matrix.data[1], vec![r(0, 1), r(0, 1), r(1, 1), r(3, 1)]);
    assert_eq!(steps[1].row_ops[0].op_type, OpType::Eliminate);
    assert_eq!(steps[1].row_ops[0].arrow_src.as_deref(), Some("-1"));
    assert_eq!(steps[1].row_ops[1].arrow_dst.as_deref(), Some("1"));
    assert_eq!(steps[1].row_ops[2].op_type, OpType::NoChange);
    // the swap of rows 3 and 2
    assert_eq!(steps[3].row_ops[1].op_type, OpType::Swap);
    assert_eq!(steps[3].row_ops[2].arrow_src.as_deref(), Some("R3 ↔ R2"));
    assert_eq!(steps[3].row_ops[0].op_type, OpType::NoChange);
    match sol {
        Solution::Unique(v) => {
            let got: Vec<(String, Rational)> = v;
            assert_eq!(
                got,
                vec![("x".to_string(), r(1, 1)), ("y".to_string(), r(2, 1)), ("z".to_string(), r(3, 1))]
            );
        }
        _ => panic!("expected a unique solution"),
    }
}

#[test]
fn from_equations_takes_the_last_entry_of_a_repeated_name() {
    let eq = NormalizedEquation {
        terms: vec![("y".to_string(), r(1, 1)), ("x".to_string(), r(2, 1)), ("y".to_string(), r(3, 1))],
        constant: r(4, 1),
    };
    let (m, vars) = AugmentedMatrix::from_equations(&vec![eq]);
    assert_eq!(vars, vec!["x".to_string(), "y".to_string()]);
    assert_eq!(m.data[0], vec![r(2, 1), r(3, 1), r(4, 1)]);
}

#[test]
fn elimination_accepts_a_negative_denominator() {
    // x / (-2) = 3, written with the denominator's sign left in place
    let m = AugmentedMatrix {
        data: vec![vec![Rational { num: 1, den: -2 }, Rational { num: 3, den: 1 }]],
        vars: vec!["x".to_string()],
        rows: 1,
        cols: 1,
    };
    let (steps, sol) = gaussian_elimination(&m);
    assert_eq!(steps.len(), 1);
    match sol {
        Solution::Unique(v) => assert_eq!(v, vec![("x".to_string(), r(-6, 1))]),
        _ => panic!("expected a unique solution"),
    }
}

#[test]
fn every_step_keeps_the_solution() {
    let eqs: Vec<NormalizedEquation> = ["x + y + z = 6", "x + y + 2z = 9", "x + 2y + 3z = 14"]
        .iter()
        .map(|s| parse_equation(s).unwrap())
        .collect();
    let (m, _) = AugmentedMatrix::from_equations(&eqs);
    let (steps, _) = gaussian_elimination(&m);
    let x = [1i128, 2, 3];
    for step in &steps {
        for row in &step.matrix.data {
            // every entry here has denominator 1
            let lhs: i128 = (0..3).map(|j| row[j].num * x[j]).sum();
            assert!(row.iter().all(|c| c.den == 1));
            assert_eq!(lhs, row[3].num);
        }
    }
    // (1, 2, 4) solves no step's matrix
    for step in &steps {
        let ok = step.matrix.data.iter().all(|row| {
            row[0].num + 2 * row[1].num + 4 * row[2].num == row[3].num
        });
        assert!(!ok);
    }
}

#[test]
fn elimination_clears_entries_below_pivots() {
    let eqs: Vec<NormalizedEquation> = ["2x + 3y - z = 5", "4x + y + z = 6", "-2x + 5y + 2z = 9"]
        .iter()
        .map(|s| parse_equation(s).unwrap())
        .collect();
    let (m, _) = AugmentedMatrix::from_equations(&eqs);
    let (steps, _) = gaussian_elimination(&m);
    let last = &steps[steps.len() - 1].matrix.data;
    for row in 0..3 {
        for col in 0..row {
            assert!(last[row][col].is_zero());
        }
    }
}

fn matrix_of(eqs: &[&str]) -> AugmentedMatrix {
    let parsed: Vec<NormalizedEquation> = eqs.iter().map(|s| parse_equation(s).unwrap()).collect();
    AugmentedMatrix::from_equations(&parsed).0
}

/// sum(row[j] * x[j]) over the coefficient columns
fn row_value(row: &[Rational], x: &[Rational]) -> Rational {
    let mut acc = Rational::zero();
    for j in 0..x.len() {
        acc = acc.add(row[j].mul(x[j]));
    }
    acc
}

fn lead_column(row: &[Rational], m: usize) -> usize {
    (0..m).find(|&j| !row[j].is_zero()).unwrap_or(m)
}

#[test]
fn unique_solution_satisfies_every_equation() {
    let m = matrix_of(&["2x + 3y - z = 5", "4x + y + z = 6", "-2x + 5y + 2z = 9"]);
    let (_, sol) = gaussian_elimination(&m);
    let values: Vec<(String, Rational)> = match sol {
        Solution::Unique(v) => v,
        _ => panic!("expected a unique solution"),
    };
    let x: Vec<Rational> = m
        .vars
        .iter()
        .map(|name| values.iter().find(|(n, _)| n == name).unwrap().1)
        .collect();
    assert_eq!(x, vec![r(45, 58), r(46, 29), r(38, 29)]);
    for row in &m.data {
        assert_eq!(row_value(row, &x), row[m.cols]);
    }
}

#[test]
fn unique_solution_is_the_only_one() {
    // by Cramer's rule the only solution of this system is x = 7/5, y = 6/5
    let m = matrix_of(&["3x - y = 3", "x + 2y = 19/5"]);
    let (_, sol) = gaussian_elimination(&m);
    match sol {
        Solution::Unique(v) => {
            assert_eq!(v, vec![("x".to_string(), r(7, 5)), ("y".to_string(), r(6, 5))]);
        }
        _ => panic!("expected a unique solution"),
    }
    // a different candidate misses an equation
    let other = vec![r(1, 1), r(0, 1)];
    assert!(m.data.iter().any(|row| row_value(row, &other) != row[m.cols]));
}

#[test]
fn elimination_ends_in_row_echelon_form() {
    let m = matrix_of(&["x + y + z = 1", "2x + 2y + z = 3", "x + y + 2z = 0", "3x + 3y + 3z = 3"]);
    let (steps, _) = gaussian_elimination(&m);
    let last = &steps[steps.len() - 1].matrix.data;
    let leads: Vec<usize> = last.iter().map(|row| lead_column(row, m.cols)).collect();
    // column y gets no pivot; the two rows without coefficients come last
    assert_eq!(leads, vec![0, 2, 3, 3]);
}

#[test]
fn no_solution_means_no_values_fit() {
    let m = matrix_of(&["x + y = 1", "2x + 2y = 3"]);
    let (steps, sol) = gaussian_elimination(&m);
    assert!(matches!(sol, Solution::NoSolution));
    // the final matrix holds the contradiction 0 = c with c != 0
    let last = &steps[steps.len() - 1].matrix.data;
    assert!(last[1][0].is_zero() && last[1][1].is_zero() && !last[1][2].is_zero());
    for x in [vec![r(1, 1), r(0, 1)], vec![r(3, 2), r(0, 1)], vec![r(1, 4), r(3, 4)]] {
        assert!(m.data.iter().any(|row| row_value(row, &x) != row[m.cols]));
    }
}

/// The value of an answer expression such as "-2t + 5" for the parameter value
/// `tv`, read with the equation parser as `zz = expr`.
fn expression_value(expr: &str, tv: Rational) -> Rational {
    let eq = parse_equation(&format!("zz = {}", expr)).unwrap();
    let mut rest = eq.constant;
    let mut own = Rational::zero();
    for (name, c) in &eq.terms {
        if name == "zz" {
            own = *c;
        } else {
            assert_eq!(name, "t");
            rest = rest.sub(c.mul(tv));
        }
    }
    rest.div(own)
}

#[test]
fn parametric_values_satisfy_every_equation() {
    let m = matrix_of(&["x + 2y - z = 4", "2x + 4y - z = 9"]);
    let (_, sol) = gaussian_elimination(&m);
    let params: Vec<(String, String)> = match sol {
        Solution::Parametric(p) => p.iter().map(|v| (v.var.clone(), v.expr.clone())).collect(),
        _ => panic!("expected a parametric solution"),
    };
    assert_eq!(
        params,
        vec![
            ("y".to_string(), "t".to_string()),
            ("x".to_string(), "-2t + 5".to_string()),
            ("z".to_string(), "1".to_string())
        ]
    );
    for tv in [r(0, 1), r(7, 3), r(-2, 1)] {
        let x: Vec<Rational> = m
            .vars
            .iter()
            .map(|name| expression_value(&params.iter().find(|(n, _)| n == name).unwrap().1, tv))
            .collect();
        for row in &m.data {
            assert_eq!(row_value(row, &x), row[m.cols]);
        }
    }
    // (1, 2, 1) solves the system; its free value y = 2 gives it back
    let known = vec![r(1, 1), r(2, 1), r(1, 1)];
    for row in &m.data {
        assert_eq!(row_value(row, &known), row[m.cols]);
    }
    let again: Vec<Rational> = m
        .vars
        .iter()
        .map(|name| expression_value(&params.iter().find(|(n, _)| n == name).unwrap().1, r(2, 1)))
        .collect();
    assert_eq!(again, known);
}

// ---------------------------------------------------------------- the whole solver

#[test]
fn solve_unique() {
    let resp = solve(lines(&["x + y = 3", "x - y = 1"])).unwrap();
    assert_eq!(resp.solution_type, "unique");
    assert_eq!(resp.solution_vars, vec!["x", "y"]);
    assert_eq!(resp.solution_values, vec!["2", "1"]);
    assert_eq!(resp.normalized_eqs, vec!["x + y = 3", "x -y = 1"]);
    assert_eq!(resp.steps.len(), 2);
    assert_eq!(resp.steps[1].row_ops[0].op_type, "Eliminate");
    assert_eq!(resp.steps[1].row_ops[1].arrow_dst.as_deref(), Some("1"));
    assert_eq!(resp.steps[1].matrix[1], vec![
        CellVal { num: 0, den: 1 },
        CellVal { num: -2, den: 1 },
        CellVal { num: -2, den: 1 }
    ]);
}

#[test]
fn solve_fractions() {
    let resp = solve(lines(&["2x + y = 1", "x - y = 1"])).unwrap();
    assert_eq!(resp.solution_vars, vec!["x", "y"]);
    assert_eq!(resp.solution_values, vec!["2/3", "-1/3"]);
}

#[test]
fn solve_parametric() {
    let resp = solve(lines(&["x + y = 2"])).unwrap();
    assert_eq!(resp.solution_type, "parametric");
    assert_eq!(resp.solution_vars, vec!["y", "x"]);
    assert_eq!(resp.solution_values, vec!["t", "-t + 2"]);
}

#[test]
fn solve_parametric_two_parameters() {
    let resp = solve(lines(&["x + 2y - z = 4"])).unwrap();
    assert_eq!(resp.solution_type, "parametric");
    assert_eq!(resp.solution_vars, vec!["z", "y", "x"]);
    assert_eq!(resp.solution_values, vec!["s", "t", "-2t + s + 4"]);
}

#[test]
fn solve_no_solution() {
    let resp = solve(lines(&["x + y = 1", "x + y = 2"])).unwrap();
    assert_eq!(resp.solution_type, "no_solution");
    assert_eq!(resp.solution_vars, vec!["System"]);
    assert_eq!(resp.solution_values, vec!["Keine Lösung (inkonsistent)"]);
}

#[test]
fn solve_errors() {
    assert_eq!(
        solve(vec![]).unwrap_err(),
        "Bitte geben Sie mindestens eine Gleichung ein."
    );
    assert_eq!(
        solve(lines(&["x + y = 1", "x + = 2"])).unwrap_err(),
        "Fehler beim Parsen von 'x + = 2': Zahl oder Variable erwartet, erhalten: Equals"
    );
    assert!(try_solve(&lines(&["x/0 = 1"])).is_none());
}

// ---------------------------------------------------------------- display

#[test]
fn cell_texts() {
    assert_eq!(format_cell(&CellVal { num: 3, den: 1 }), " 3 ");
    assert_eq!(format_cell(&CellVal { num: -3, den: 1 }), "-3");
    assert_eq!(format_cell(&CellVal { num: -3, den: 4 }), "-3/4");
    assert_eq!(format_cell(&CellVal { num: 3, den: 4 }), "3/4");
}

#[test]
fn step_rows_show_cells_arrows_and_classes() {
    let resp = solve(lines(&["x + y = 3", "x - y = 1"])).unwrap();
    let rows = step_rows(&resp.steps[1]);
    assert_eq!(rows.len(), 2);
    assert_eq!(rows[0].cells, vec![" 1 ", " 1 ", " 3 "]);
    assert_eq!(rows[0].op_class, "op-elim");
    assert_eq!(rows[0].arrow_src.as_deref(), Some("-1"));
    assert_eq!(rows[1].cells, vec![" 0 ", "-2", "-2"]);
    assert_eq!(rows[1].arrow_dst.as_deref(), Some("1"));
    let first = step_rows(&resp.steps[0]);
    assert_eq!(first[0].op_class, "op-none");
}

#[test]
fn cell_from_rational() {
    assert_eq!(CellVal::from(r(-1, 3)), CellVal { num: -1, den: 3 });
}

// ---------------------------------------------------------------- reading off an echelon matrix

fn rows(v: &[&[(i128, i128)]]) -> Vec<Vec<Rational>> {
    v.iter().map(|row| row.iter().map(|&(n, d)| Rational { num: n, den: d }).collect()).collect()
}

#[test]
fn compute_solution_reads_a_unique_solution_off_an_echelon_matrix() {
    // 2x + y = 5, 3y = 6, with a denominator written negative: y = 2, x = 3/2
    let d = rows(&[&[(2, 1), (1, 1), (5, 1)], &[(0, 1), (-3, -1), (6, 1)]]);
    let vars = vec!["x".to_string(), "y".to_string()];
    match compute_solution(&d, &vars, 2, 2) {
        Some(Solution::Unique(v)) => {
            assert_eq!(v, vec![("x".to_string(), r(3, 2)), ("y".to_string(), r(2, 1))]);
        }
        _ => panic!("expected a unique solution"),
    }
}

#[test]
fn compute_solution_reports_an_inconsistent_row() {
    let d = rows(&[&[(1, 1), (1, 1), (2, 1)], &[(0, 1), (0, 1), (3, 1)]]);
    let vars = vec!["x".to_string(), "y".to_string()];
    assert!(matches!(compute_solution(&d, &vars, 2, 2), Some(Solution::NoSolution)));
}

#[test]
fn compute_solution_gives_expressions_for_a_free_column() {
    // x + 2y = 3: y is free
    let d = rows(&[&[(1, 1), (2, 1), (3, 1)]]);
    let vars = vec!["x".to_string(), "y".to_string()];
    match compute_solution(&d, &vars, 1, 2) {
        Some(Solution::Parametric(p)) => {
            let got: Vec<(String, String)> = p.iter().map(|v| (v.var.clone(), v.expr.clone())).collect();
            assert_eq!(
                got,
                vec![("y".to_string(), "t".to_string()), ("x".to_string(), "-2t + 3".to_string())]
            );
        }
        _ => panic!("expected a parametric solution"),
    }
}
