use vstd::prelude::*;
use crate::matrix::names_view;
use crate::solver::{clone_opt, opt_text_view, CellVal, SpecOpInfo, SpecStepInfo, StepInfo};
use crate::text::{dec_int, i128_to_string, push_str};

verus! {

/// One row of a step as shown: the cell texts, the arrow labels and the style class
/// of the row's operation.
#[derive(Debug)]
pub struct StepRowDisplay {
    pub cells: Vec<String>,
    pub arrow_src: Option<String>,
    pub arrow_dst: Option<String>,
    pub op_class: String,
}

pub struct SpecRowDisplay {
    pub cells: Seq<Seq<char>>,
    pub src: Option<Seq<char>>,
    pub dst: Option<Seq<char>>,
    pub op_class: Seq<char>,
}

impl View for StepRowDisplay {
    type V = SpecRowDisplay;

    open spec fn view(&self) -> SpecRowDisplay {
        SpecRowDisplay {
            cells: names_view(self.cells@),
            src: opt_text_view(self.arrow_src),
            dst: opt_text_view(self.arrow_dst),
            op_class: self.op_class@,
        }
    }
}

pub open spec fn rows_display_view(v: Seq<StepRowDisplay>) -> Seq<SpecRowDisplay> {
    v.map_values(|r: StepRowDisplay| r@)
}

/// The text of a cell: an integer padded with a space on each side when it is not
/// negative, else `num/den`.
pub open spec fn cell_text(c: CellVal) -> Seq<char> {
    if c.den == 1 {
        if c.num >= 0 {
            " "@ + dec_int(c.num as int) + " "@
        } else {
            dec_int(c.num as int)
        }
    } else {
        dec_int(c.num as int) + "/"@ + dec_int(c.den as int)
    }
}

/// Writing the cell does not overflow (a negative numerator over a denominator other
/// than 1 is negated).
pub open spec fn cell_writable(c: CellVal) -> bool {
    c.den == 1 || c.num != i128::MIN
}

/// The style class of a row operation.
pub open spec fn op_class_of(op_type: Seq<char>) -> Seq<char> {
    if op_type == "Eliminate"@ {
        "op-elim"@
    } else if op_type == "Swap"@ {
        "op-swap"@
    } else {
        "op-none"@
    }
}

/// How row `r` of a step is shown.
pub open spec fn row_display(step: SpecStepInfo, r: int) -> SpecRowDisplay {
    SpecRowDisplay {
        cells: step.matrix[r].map_values(|c: CellVal| cell_text(c)),
        src: if r < step.row_ops.len() {
            step.row_ops[r].src
        } else {
            None
        },
        dst: if r < step.row_ops.len() {
            step.row_ops[r].dst
        } else {
            None
        },
        op_class: if r < step.row_ops.len() {
            op_class_of(step.row_ops[r].op_type)
        } else {
            "op-none"@
        },
    }
}

/// Every cell of the step can be written.
pub open spec fn step_writable(step: SpecStepInfo) -> bool {
    forall|r: int, c: int|
        0 <= r < step.matrix.len() && 0 <= c < step.matrix[r].len() ==> cell_writable(
            #[trigger] step.matrix[r][c],
        )
}

/// The text of a matrix cell (see [`cell_text`]).
pub fn format_cell(val: &CellVal) -> (s: String)
    requires
        cell_writable(*val),
    ensures
        s@ == cell_text(*val),
{
    if val.den == 1 {
        if val.num >= 0 {
            let mut s = String::from_str(" ");
            let d = i128_to_string(val.num);
            push_str(&mut s, d.as_str());
            push_str(&mut s, " ");
            s
        } else {
            i128_to_string(val.num)
        }
    } else {
        let mut s = i128_to_string(val.num);
        push_str(&mut s, "/");
        let d = i128_to_string(val.den);
        push_str(&mut s, d.as_str());
        s
    }
}

fn op_class(op_type: &String) -> (s: String)
    ensures
        s@ == op_class_of(op_type@),
{
    let elim = String::from_str("Eliminate");
    let swap = String::from_str("Swap");
    if *op_type == elim {
        String::from_str("op-elim")
    } else if *op_type == swap {
        String::from_str("op-swap")
    } else {
        String::from_str("op-none")
    }
}

/// How each row of a step is shown: its cells, and the arrow labels and style class
/// of its operation (none where the step has no annotation for the row).
pub fn step_rows(step: &StepInfo) -> (rows: Vec<StepRowDisplay>)
    requires
        step_writable(step@),
    ensures
        rows_display_view(rows@) == Seq::new(step@.matrix.len(), |r: int| row_display(step@, r)),
{
    let ghost sv = step@;
    let ghost want = Seq::new(sv.matrix.len(), |r: int| row_display(sv, r));
    let n = step.matrix.len();
    let mut rows: Vec<StepRowDisplay> = Vec::new();
    let mut r: usize = 0;
    while r < n
        invariant
            r <= n,
            n == step.matrix.len(),
            sv == step@,
            step_writable(sv),
            want == Seq::new(sv.matrix.len(), |k: int| row_display(sv, k)),
            rows_display_view(rows@) == want.subrange(0, r as int),
        decreases n - r,
    {
        let row = &step.matrix[r];
        assert(sv.matrix[r as int] == row@);
        let mut cells: Vec<String> = Vec::new();
        let mut c: usize = 0;
        while c < row.len()
            invariant
                c <= row.len(),
                r < n,
                n == step.matrix.len(),
                sv == step@,
                step_writable(sv),
                sv.matrix[r as int] == row@,
                names_view(cells@) == row@.map_values(|x: CellVal| cell_text(x)).subrange(0, c as int),
            decreases row.len() - c,
        {
            assert(cell_writable(sv.matrix[r as int][c as int]));
            let t = format_cell(&row[c]);
            let ghost before = names_view(cells@);
            let ghost tv = t@;
            cells.push(t);
            assert(names_view(cells@) =~= before.push(tv));
            c = c + 1;
            assert(names_view(cells@) =~= row@.map_values(|x: CellVal| cell_text(x)).subrange(0, c as int));
        }
        assert(row@.map_values(|x: CellVal| cell_text(x)).subrange(0, row.len() as int) =~= row@.map_values(|x: CellVal| cell_text(x)));
        let item = if r < step.row_ops.len() {
            let op = &step.row_ops[r];
            StepRowDisplay {
                cells,
                arrow_src: clone_opt(&op.arrow_src),
                arrow_dst: clone_opt(&op.arrow_dst),
                op_class: op_class(&op.op_type),
            }
        } else {
            StepRowDisplay { cells, arrow_src: None, arrow_dst: None, op_class: String::from_str("op-none") }
        };
        let ghost before = rows_display_view(rows@);
        let ghost iv = item@;
        assert(iv == row_display(sv, r as int));
        rows.push(item);
        assert(rows_display_view(rows@) =~= before.push(iv));
        r = r + 1;
        assert(rows_display_view(rows@) =~= want.subrange(0, r as int));
    }
    assert(want.subrange(0, n as int) =~= want);
    rows
}

// ---------------------------------------------------------------------------
// Step playback
// ---------------------------------------------------------------------------

/// A playback control: back to the first step, one step back, one step forward, or
/// on to the last step.
#[derive(Clone, Copy, Debug)]
pub enum PlaybackEvent {
    First,
    Previous,
    Next,
    Last,
}

/// The step shown after a control, from step `cur` of `total`: stepping never leaves
/// the range, and a control that cannot move keeps the step.
pub open spec fn playback_spec(cur: nat, total: nat, ev: PlaybackEvent) -> nat {
    match ev {
        PlaybackEvent::First => 0,
        PlaybackEvent::Previous => if cur > 0 {
            (cur - 1) as nat
        } else {
            cur
        },
        PlaybackEvent::Next => if total > 0 && cur + 1 < total {
            cur + 1
        } else {
            cur
        },
        PlaybackEvent::Last => if total > 0 {
            (total - 1) as nat
        } else {
            cur
        },
    }
}

/// The step to show after a playback control (see [`playback_spec`]); from a step
/// in range the result stays in range.
pub fn playback_step(cur: usize, total: usize, ev: PlaybackEvent) -> (r: usize)
    ensures
        r == playback_spec(cur as nat, total as nat, ev),
        cur < total ==> r < total,
        ev is First ==> r == 0,
        ev is Previous ==> (cur > 0 ==> r + 1 == cur) && (cur == 0 ==> r == 0),
        ev is Next ==> (cur + 1 < total ==> r == cur + 1) && (cur + 1 >= total ==> r == cur),
        ev is Last ==> (total > 0 ==> r + 1 == total) && (total == 0 ==> r == cur),
{
    match ev {
        PlaybackEvent::First => 0,
        PlaybackEvent::Previous => if cur > 0 {
            cur - 1
        } else {
            cur
        },
        PlaybackEvent::Next => if total > 0 && cur < total - 1 {
            cur + 1
        } else {
            cur
        },
        PlaybackEvent::Last => if total > 0 {
            total - 1
        } else {
            cur
        },
    }
}

/// Playback moves by one step at a time and stays on the recorded steps: "previous"
/// goes back exactly one step (none from the first), "next" forward exactly one (none
/// from the last), "first" and "last" to the two ends; and "previous" after "next"
/// comes back to where it started.
pub proof fn law_playback_moves(cur: nat, total: nat)
    requires
        cur < total,
    ensures
        cur > 0 ==> playback_spec(cur, total, PlaybackEvent::Previous) + 1 == cur,
        cur == 0 ==> playback_spec(cur, total, PlaybackEvent::Previous) == 0,
        cur + 1 < total ==> playback_spec(cur, total, PlaybackEvent::Next) == cur + 1,
        cur + 1 == total ==> playback_spec(cur, total, PlaybackEvent::Next) == cur,
        playback_spec(cur, total, PlaybackEvent::First) == 0,
        playback_spec(cur, total, PlaybackEvent::Last) + 1 == total,
        cur + 1 < total ==> playback_spec(
            playback_spec(cur, total, PlaybackEvent::Next),
            total,
            PlaybackEvent::Previous,
        ) == cur,
        cur > 0 ==> playback_spec(
            playback_spec(cur, total, PlaybackEvent::Previous),
            total,
            PlaybackEvent::Next,
        ) == cur,
        forall|ev: PlaybackEvent| #[trigger] playback_spec(cur, total, ev) < total,
{
}

} // verus!
