//! The rule table: a 16x16 matrix of complex amplitudes encoding the local
//! unitary that acts on one 2x2 block. Row `p_in` gives the complex weight
//! of every output pattern `p_out`. Entries come from textual arithmetic
//! expressions evaluated once at load time, with the constants PI and E in
//! scope; missing entries are zero.

use vstd::prelude::*;
use crate::amplitude::{Amplitude, AmpView};

verus! {

/// The outcome that evalexpr assigns to an expression under the constant
/// context (PI and E bound): the bit pattern of the resulting `f64`, or
/// `None` where evaluation fails. It depends on the expression alone.
pub uninterp spec fn eval_of(src: Seq<char>) -> Option<u64>;

/// One rule-table entry as read from the textual rule source: two
/// arithmetic expressions, real then imaginary.
pub struct YamlRulesComplex {
    pub re: String,
    pub im: String,
}

/// The verified view of a textual rule entry.
pub ghost struct YamlComplexView {
    pub re: Seq<char>,
    pub im: Seq<char>,
}

impl View for YamlRulesComplex {
    type V = YamlComplexView;

    open spec fn view(&self) -> YamlComplexView {
        YamlComplexView { re: self.re@, im: self.im@ }
    }
}

/// Errors of rule-table construction.
#[derive(Clone, Copy, PartialEq, Eq, Structural, Debug)]
pub enum RuleError {
    /// A row index outside 0..=15.
    InvalidRowIndex,
    /// A column index outside 0..=15.
    InvalidColumnIndex,
    /// An expression that does not evaluate to a number.
    BadExpression,
}

/// Relies on evalexpr's `eval_number_with_context` over a context that
/// binds PI (via `math::atan2(0, -1)`) and E (via `math::exp(1)`): whether
/// an expression evaluates, and to which number, depends on the expression
/// alone. Both component expressions of one entry are evaluated; the
/// entry's amplitude is built from the two results.
#[verifier::external_body]
fn eval_complex_expr(re_src: &str, im_src: &str) -> (r: Option<Amplitude>)
    ensures
        r is Some <==> (eval_of(re_src@) is Some && eval_of(im_src@) is Some),
        r matches Some(a) ==> a@ == (AmpView {
            re: eval_of(re_src@).unwrap(),
            im: eval_of(im_src@).unwrap(),
        }),
{
    let mut ctx = evalexpr::HashMapContext::<evalexpr::DefaultNumericTypes>::new();
    let pi = evalexpr::eval_number("math::atan2(0, -1)").ok()?;
    let e = evalexpr::eval_number("math::exp(1)").ok()?;
    evalexpr::ContextWithMutableVariables::set_value(&mut ctx, "PI".to_string(), evalexpr::Value::Float(pi)).ok()?;
    evalexpr::ContextWithMutableVariables::set_value(&mut ctx, "E".to_string(), evalexpr::Value::Float(e)).ok()?;
    let re = evalexpr::eval_number_with_context(re_src, &ctx).ok()?;
    let im = evalexpr::eval_number_with_context(im_src, &ctx).ok()?;
    let c = num::complex::Complex::new(re, im);
    Some(Amplitude::from_complex(c))
}

/// The immutable 16x16 rule table, stored row-major as 256 amplitudes.
pub struct Rules {
    entries: Vec<Amplitude>,
}

impl View for Rules {
    type V = Seq<AmpView>;

    closed spec fn view(&self) -> Seq<AmpView> {
        self.entries@.map_values(|a: Amplitude| a@)
    }
}

impl Rules {
    /// A well-formed table has one entry per (row, column) pair.
    pub open spec fn wf(&self) -> bool {
        self@.len() == 256
    }

    /// The entry at `row`, `col`, row-major.
    pub fn entry(&self, row: usize, col: usize) -> (r: &Amplitude)
        requires
            self.wf(),
            row < 16,
            col < 16,
        ensures
            r@ == self@[row as int * 16 + col as int],
    {
        &self.entries[row * 16 + col]
    }

    /// A table of 256 zero amplitudes.
    pub fn all_zero() -> (r: Rules)
        ensures
            r.wf(),
            forall|i: int| 0 <= i < 256 ==> r@[i] == (AmpView { re: 0, im: 0 }),
    {
        let mut entries: Vec<Amplitude> = Vec::new();
        let mut i: usize = 0;
        while i < 256
            invariant
                0 <= i <= 256,
                entries@.len() == i,
                forall|j: int| 0 <= j < i ==> entries@[j]@ == (AmpView { re: 0, im: 0 }),
            decreases 256 - i,
        {
            entries.push(Amplitude::zero());
            i = i + 1;
        }
        Rules { entries }
    }

    /// Overwrites the entry at `row`, `col`.
    pub fn set_entry(&mut self, row: usize, col: usize, a: Amplitude)
        requires
            old(self).wf(),
            row < 16,
            col < 16,
        ensures
            final(self).wf(),
            final(self)@ == old(self)@.update(row as int * 16 + col as int, a@),
    {
        let ghost before = self@;
        self.entries[row * 16 + col] = a;
        proof {
            assert(final(self)@ =~= before.update(row as int * 16 + col as int, a@));
        }
    }
}

/// The state of the rule table after applying the column entries of one
/// row, from position `j` on: each column in 0..=15 overwrites its entry
/// with the evaluation of its two expressions.
pub open spec fn apply_cols(
    tab: Seq<AmpView>,
    row: int,
    cols: Seq<(i32, YamlComplexView)>,
    j: int,
) -> Result<Seq<AmpView>, RuleError>
    decreases cols.len() - j,
{
    if j < 0 || j >= cols.len() {
        Ok(tab)
    } else {
        let (col, exprs) = cols[j];
        if !(0 <= col < 16) {
            Err(RuleError::InvalidColumnIndex)
        } else if eval_of(exprs.re) is Some && eval_of(exprs.im) is Some {
            apply_cols(
                tab.update(
                    row * 16 + col,
                    AmpView { re: eval_of(exprs.re).unwrap(), im: eval_of(exprs.im).unwrap() },
                ),
                row,
                cols,
                j + 1,
            )
        } else {
            Err(RuleError::BadExpression)
        }
    }
}

/// The state of the rule table after applying the rows from position `k`
/// on. Rows and columns are applied in the order given, later entries
/// overwriting earlier ones.
pub open spec fn apply_rows(
    tab: Seq<AmpView>,
    yaml: Seq<(i32, Seq<(i32, YamlComplexView)>)>,
    k: int,
) -> Result<Seq<AmpView>, RuleError>
    decreases yaml.len() - k,
{
    if k < 0 || k >= yaml.len() {
        Ok(tab)
    } else {
        let (row, cols) = yaml[k];
        if !(0 <= row < 16) {
            Err(RuleError::InvalidRowIndex)
        } else {
            match apply_cols(tab, row as int, cols, 0) {
                Ok(t2) => apply_rows(t2, yaml, k + 1),
                Err(e) => Err(e),
            }
        }
    }
}

/// The view of one textual rule row.
pub open spec fn cols_view(cols: Seq<(i32, YamlRulesComplex)>) -> Seq<(i32, YamlComplexView)> {
    cols.map_values(|q: (i32, YamlRulesComplex)| (q.0, q.1@))
}

/// The view of a textual rule source.
pub open spec fn yaml_view(
    yaml: Seq<(i32, Vec<(i32, YamlRulesComplex)>)>,
) -> Seq<(i32, Seq<(i32, YamlComplexView)>)> {
    yaml.map_values(|p: (i32, Vec<(i32, YamlRulesComplex)>)| (p.0, cols_view(p.1@)))
}

/// The rule table described by a textual rule source: every listed entry
/// evaluated, every other entry zero.
pub open spec fn rules_of_yaml(
    yaml: Seq<(i32, Seq<(i32, YamlComplexView)>)>,
) -> Result<Seq<AmpView>, RuleError> {
    apply_rows(Seq::new(256, |i: int| AmpView { re: 0, im: 0 }), yaml, 0)
}

/// Builds the rule table from a textual rule source: starts from the
/// all-zero table and overwrites, in the order given, each listed entry
/// with the evaluation of its two expressions. Returns an error exactly
/// when an index is out of range or an expression does not evaluate.
pub fn yaml_rules_to_universe_rules(
    yaml: &Vec<(i32, Vec<(i32, YamlRulesComplex)>)>,
) -> (r: Result<Rules, RuleError>)
    ensures
        r is Ok <==> rules_of_yaml(yaml_view(yaml@)) is Ok,
        r matches Ok(rules) ==> rules.wf() && rules@ == rules_of_yaml(yaml_view(yaml@)).unwrap(),
        r matches Err(e) ==> rules_of_yaml(yaml_view(yaml@)) == Result::<
            Seq<AmpView>,
            RuleError,
        >::Err(e),
{
    let mut tab = Rules::all_zero();
    proof {
        assert(tab@ =~= Seq::new(256, |i: int| AmpView { re: 0, im: 0 }));
    }
    let ghost yv = yaml_view(yaml@);
    let mut k: usize = 0;
    while k < yaml.len()
        invariant
            0 <= k <= yaml.len(),
            yv == yaml_view(yaml@),
            yv.len() == yaml@.len(),
            tab.wf(),
            rules_of_yaml(yv) == apply_rows(tab@, yv, k as int),
        decreases yaml.len() - k,
    {
        let row_i32 = yaml[k].0;
        let ghost cv = cols_view(yaml@[k as int].1@);
        proof {
            assert(yv[k as int] == (row_i32, cv));
        }
        if !(0 <= row_i32 && row_i32 < 16) {
            return Err(RuleError::InvalidRowIndex);
        }
        let row = row_i32 as usize;
        let cols_len = yaml[k].1.len();
        let ghost tab0 = tab@;
        let mut j: usize = 0;
        while j < cols_len
            invariant
                0 <= j <= cols_len,
                k < yaml.len(),
                cols_len == yaml@[k as int].1@.len(),
                cv == cols_view(yaml@[k as int].1@),
                cv.len() == cols_len,
                0 <= row_i32 < 16,
                row == row_i32 as usize,
                tab.wf(),
                yv == yaml_view(yaml@),
                yv.len() == yaml@.len(),
                yv[k as int] == (row_i32, cv),
                rules_of_yaml(yv) == apply_rows(tab0, yv, k as int),
                apply_cols(tab0, row as int, cv, 0) == apply_cols(tab@, row as int, cv, j as int),
            decreases cols_len - j,
        {
            let col_i32 = yaml[k].1[j].0;
            proof {
                assert(cv[j as int] == (col_i32, yaml@[k as int].1@[j as int].1@));
            }
            if !(0 <= col_i32 && col_i32 < 16) {
                proof {
                    assert(apply_cols(tab@, row as int, cv, j as int) == Result::<
                        Seq<AmpView>,
                        RuleError,
                    >::Err(RuleError::InvalidColumnIndex));
                }
                return Err(RuleError::InvalidColumnIndex);
            }
            let col = col_i32 as usize;
            match eval_complex_expr(yaml[k].1[j].1.re.as_str(), yaml[k].1[j].1.im.as_str()) {
                Some(a) => {
                    tab.set_entry(row, col, a);
                },
                None => {
                    proof {
                        assert(apply_cols(tab@, row as int, cv, j as int) == Result::<
                            Seq<AmpView>,
                            RuleError,
                        >::Err(RuleError::BadExpression));
                    }
                    return Err(RuleError::BadExpression);
                },
            }
            j = j + 1;
        }
        proof {
            assert(apply_cols(tab@, row as int, cv, cols_len as int) == Result::<
                Seq<AmpView>,
                RuleError,
            >::Ok(tab@));
            assert(apply_rows(tab0, yv, k as int) == apply_rows(tab@, yv, k as int + 1));
        }
        k = k + 1;
    }
    Ok(tab)
}

/// An evaluated rule entry at the spec level.
pub open spec fn eval_amp(re: Seq<char>, im: Seq<char>) -> AmpView {
    AmpView { re: eval_of(re).unwrap(), im: eval_of(im).unwrap() }
}

/// The amplitude 1+0i at the spec level.
pub open spec fn one_amp() -> AmpView {
    AmpView { re: crate::amplitude::ONE_BITS, im: 0 }
}

/// The amplitude 0+0i at the spec level.
pub open spec fn zero_amp() -> AmpView {
    AmpView { re: 0, im: 0 }
}

/// One entry of the default rule table, by flat row-major index. The
/// default rules map every basis pattern to a single successor, except
/// three phase rotations and two balanced splits; pattern 0 maps to itself
/// with weight 1, which lets blocks without live cells pass unchanged.
pub open spec fn default_entry_spec(i: int) -> AmpView {
    if i == 0 || i == 20 || i == 33 || i == 59 || i == 72 || i == 117 || i == 130 || i == 179
        || i == 205 || i == 220 || i == 234 {
        one_amp()
    } else if i == 87 {
        eval_amp("math::cos(PI/4)"@, "math::sin(PI/4)"@)
    } else if i == 102 || i == 105 || i == 150 {
        eval_amp("1/math::sqrt(2)"@, "0"@)
    } else if i == 153 {
        eval_amp("-(1/math::sqrt(2))"@, "0"@)
    } else if i == 174 {
        eval_amp("math::cos(PI/8)"@, "math::sin(PI/8)"@)
    } else if i == 255 {
        eval_amp("math::cos(PI/2)"@, "math::sin(PI/2)"@)
    } else {
        zero_amp()
    }
}

/// The default rule table.
pub open spec fn default_rules_spec() -> Seq<AmpView> {
    Seq::new(256, |i: int| default_entry_spec(i))
}

/// Whether every expression of the default table evaluates.
pub open spec fn default_rules_evals_ok() -> bool {
    eval_of("math::cos(PI/4)"@) is Some && eval_of("math::sin(PI/4)"@) is Some && eval_of(
        "1/math::sqrt(2)"@,
    ) is Some && eval_of("0"@) is Some && eval_of("-(1/math::sqrt(2))"@) is Some && eval_of(
        "math::cos(PI/8)"@,
    ) is Some && eval_of("math::sin(PI/8)"@) is Some && eval_of("math::cos(PI/2)"@) is Some
        && eval_of("math::sin(PI/2)"@) is Some
}

/// The default rule table, with each non-basis entry evaluated once. Fails
/// exactly when one of its fixed expressions does not evaluate.
pub fn get_default_rules() -> (r: Result<Rules, RuleError>)
    ensures
        r is Ok <==> default_rules_evals_ok(),
        r matches Ok(rules) ==> rules.wf() && rules@ == default_rules_spec(),
        r matches Err(e) ==> e == RuleError::BadExpression,
{
    let a57 = match eval_complex_expr("math::cos(PI/4)", "math::sin(PI/4)") {
        Some(a) => a,
        None => {
            return Err(RuleError::BadExpression);
        },
    };
    let a66 = match eval_complex_expr("1/math::sqrt(2)", "0") {
        Some(a) => a,
        None => {
            return Err(RuleError::BadExpression);
        },
    };
    let a69 = match eval_complex_expr("1/math::sqrt(2)", "0") {
        Some(a) => a,
        None => {
            return Err(RuleError::BadExpression);
        },
    };
    let a96 = match eval_complex_expr("1/math::sqrt(2)", "0") {
        Some(a) => a,
        None => {
            return Err(RuleError::BadExpression);
        },
    };
    let a99 = match eval_complex_expr("-(1/math::sqrt(2))", "0") {
        Some(a) => a,
        None => {
            return Err(RuleError::BadExpression);
        },
    };
    let a1014 = match eval_complex_expr("math::cos(PI/8)", "math::sin(PI/8)") {
        Some(a) => a,
        None => {
            return Err(RuleError::BadExpression);
        },
    };
    let a1515 = match eval_complex_expr("math::cos(PI/2)", "math::sin(PI/2)") {
        Some(a) => a,
        None => {
            return Err(RuleError::BadExpression);
        },
    };
    let mut tab = Rules::all_zero();
    tab.set_entry(0, 0, Amplitude::one());
    tab.set_entry(1, 4, Amplitude::one());
    tab.set_entry(2, 1, Amplitude::one());
    tab.set_entry(3, 11, Amplitude::one());
    tab.set_entry(4, 8, Amplitude::one());
    tab.set_entry(5, 7, a57);
    tab.set_entry(6, 6, a66);
    tab.set_entry(6, 9, a69);
    tab.set_entry(7, 5, Amplitude::one());
    tab.set_entry(8, 2, Amplitude::one());
    tab.set_entry(9, 6, a96);
    tab.set_entry(9, 9, a99);
    tab.set_entry(10, 14, a1014);
    tab.set_entry(11, 3, Amplitude::one());
    tab.set_entry(12, 13, Amplitude::one());
    tab.set_entry(13, 12, Amplitude::one());
    tab.set_entry(14, 10, Amplitude::one());
    tab.set_entry(15, 15, a1515);
    proof {
        assert(tab@ =~= default_rules_spec());
    }
    Ok(tab)
}

} // verus!
