//! The panel in which the parameters of the blob are set.
//!
//! The panel is a list of controls, shown one after the other. A value that
//! is entered counts at once: the controls below it see it.

use vstd::prelude::*;
use vstd::string::StringExecFns;
use crate::bend::{bend_limit_follows_shape, bend_limit_is_in_range};
use crate::blob::BlobParams;
use crate::bump::BumpParams;
use crate::math::{computes, Arithmetic, Math};
use crate::rounding::correctly_rounded;
use crate::scalar::{
    lesser_is_bounded, lesser_is_one_of_both, Scalar, FRAC_PI_3, HALF, HUNDREDTH, ONE, PI, TAU, TEN, TWENTY, ZERO,
};

verus! {

/// A parameter that a slider sets. The index is that of a bump.
#[derive(Clone, Copy, PartialEq, Eq, Structural, Debug)]
pub enum Field {
    Volume,
    Amplitude(usize),
    Concentration(usize),
    Theta(usize),
    Phi(usize),
    Lean(usize),
    LeanDirection(usize),
    Bend(usize),
}

/// One control of the panel.
#[derive(Debug)]
pub enum Control {
    /// A line across the panel.
    Separator,
    /// A line of text.
    Label(String),
    /// The bend modes to choose from, each with its name.
    Modes([(u32, &'static str); 3]),
    /// A line of small text.
    Note(&'static str),
    /// A slider with its name and its range.
    Slider { field: Field, name: &'static str, low: Scalar, high: Scalar },
}

/// What a control shows.
pub enum Shown {
    Separator,
    Label(Seq<char>),
    Modes(Seq<(u32, Seq<char>)>),
    Note(Seq<char>),
    Slider { field: Field, name: Seq<char>, low: Scalar, high: Scalar },
}

impl View for Control {
    type V = Shown;

    open spec fn view(&self) -> Shown {
        match self {
            Control::Separator => Shown::Separator,
            Control::Label(text) => Shown::Label(text@),
            Control::Modes(modes) => Shown::Modes(
                Seq::new(3, |i: int| (modes@[i].0, modes@[i].1@)),
            ),
            Control::Note(text) => Shown::Note(text@),
            Control::Slider { field, name, low, high } => Shown::Slider {
                field: *field,
                name: name@,
                low: *low,
                high: *high,
            },
        }
    }
}

/// A decimal digit.
pub open spec fn digit(d: nat) -> char {
    (0x30 + d) as char
}

/// A number in decimal digits.
pub open spec fn decimal(n: nat) -> Seq<char>
    decreases n,
{
    if n < 10 {
        seq![digit(n)]
    } else {
        decimal(n / 10).push(digit(n % 10))
    }
}

/// A decimal digit, as text.
fn digit_text(d: usize) -> (r: &'static str)
    requires
        d < 10,
    ensures
        r@ == seq![digit(d as nat)],
{
    proof {
        reveal_strlit("0");
        reveal_strlit("1");
        reveal_strlit("2");
        reveal_strlit("3");
        reveal_strlit("4");
        reveal_strlit("5");
        reveal_strlit("6");
        reveal_strlit("7");
        reveal_strlit("8");
        reveal_strlit("9");
    }
    match d {
        0 => "0",
        1 => "1",
        2 => "2",
        3 => "3",
        4 => "4",
        5 => "5",
        6 => "6",
        7 => "7",
        8 => "8",
        _ => "9",
    }
}

/// Writes a number in decimal digits at the end of a text.
fn append_decimal(text: &mut String, n: usize)
    ensures
        final(text)@ == old(text)@ + decimal(n as nat),
    decreases n,
{
    if n >= 10 {
        append_decimal(text, n / 10);
    }
    text.append(digit_text(n % 10));
    proof {
        if n >= 10 {
            let (high, low) = (decimal((n / 10) as nat), digit((n % 10) as nat));
            assert(old(text)@ + high + seq![low] =~= old(text)@ + high.push(low));
        }
    }
}

/// What is said of a bend mode; nothing of one that is not offered.
pub open spec fn description(bend_mode: u32) -> Seq<char> {
    if bend_mode == 0 {
        "Shifted evaluation origin — soft coherent curvature"@
    } else if bend_mode == 1 {
        "Surface point pivots around bump foot — true geometric bend"@
    } else if bend_mode == 2 {
        "Direction offset — cheap baseline, tends to compress"@
    } else {
        ""@
    }
}

/// What is said of a bend mode.
pub fn mode_description(bend_mode: u32) -> (r: &'static str)
    ensures
        r@ == description(bend_mode),
{
    match bend_mode {
        0 => "Shifted evaluation origin — soft coherent curvature",
        1 => "Surface point pivots around bump foot — true geometric bend",
        2 => "Direction offset — cheap baseline, tends to compress",
        _ => "",
    }
}

/// Bend modes that the panel offers.
pub const MODES: u32 = 3;

/// Controls above those of the first bump.
pub const HEADER: usize = 5;

/// Controls of each bump.
pub const PER_BUMP: usize = 9;

/// The control of a bump that sets its lean.
pub const LEAN_PART: usize = 6;

/// The control of a bump that sets its bend.
pub const BEND_PART: usize = 8;

/// The bump that the control at a position below the header belongs to.
pub open spec fn bump_at(position: int) -> int {
    (position - HEADER) / PER_BUMP as int
}

/// Which of the controls of its bump that one is.
pub open spec fn part_at(position: int) -> int {
    (position - HEADER) % PER_BUMP as int
}

/// A slider, as it is shown.
pub open spec fn slider(field: Field, name: Seq<char>, low: u32, high: Scalar) -> Shown {
    Shown::Slider { field, name, low: Scalar(low), high }
}

/// The controls above those of the bumps.
pub open spec fn header_control(bend_mode: u32, part: int) -> Shown {
    if part == 0 {
        slider(Field::Volume, "volume"@, HUNDREDTH, Scalar(TEN))
    } else if part == 1 {
        Shown::Separator
    } else if part == 2 {
        Shown::Label("Bend Mode"@)
    } else if part == 3 {
        Shown::Modes(seq![(0u32, "Ghost Sphere"@), (1u32, "Joint Rotation"@), (2u32, "Translation"@)])
    } else {
        Shown::Note(description(bend_mode))
    }
}

/// The controls of bump `i`, whose bend limit is `bend_limit`.
pub open spec fn bump_control(i: usize, part: int, bend_limit: Scalar) -> Shown {
    if part == 0 {
        Shown::Separator
    } else if part == 1 {
        Shown::Label("Bump "@ + decimal(i as nat + 1))
    } else if part == 2 {
        slider(Field::Amplitude(i), "amplitude"@, ZERO, Scalar(ONE))
    } else if part == 3 {
        slider(Field::Concentration(i), "concentration"@, HALF, Scalar(TWENTY))
    } else if part == 4 {
        slider(Field::Theta(i), "theta"@, ZERO, Scalar(PI))
    } else if part == 5 {
        slider(Field::Phi(i), "phi"@, ZERO, Scalar(TAU))
    } else if part == 6 {
        slider(Field::Lean(i), "lean"@, ZERO, Scalar(FRAC_PI_3))
    } else if part == 7 {
        slider(Field::LeanDirection(i), "lean direction"@, ZERO, Scalar(TAU))
    } else {
        slider(Field::Bend(i), "bend"@, ZERO, bend_limit)
    }
}

impl Field {
    /// The field is one of a blob with so many bumps.
    pub open spec fn within(self, bumps: nat) -> bool {
        match self {
            Field::Volume => true,
            Field::Amplitude(i) => i < bumps,
            Field::Concentration(i) => i < bumps,
            Field::Theta(i) => i < bumps,
            Field::Phi(i) => i < bumps,
            Field::Lean(i) => i < bumps,
            Field::LeanDirection(i) => i < bumps,
            Field::Bend(i) => i < bumps,
        }
    }
}

/// The bumps with a value entered into a field.
pub open spec fn with_entry(bumps: Seq<BumpParams>, field: Field, value: Scalar) -> Seq<BumpParams> {
    match field {
        Field::Volume => bumps,
        Field::Amplitude(i) => bumps.update(i as int, BumpParams { amplitude: value, ..bumps[i as int] }),
        Field::Concentration(i) => bumps.update(i as int, BumpParams { concentration: value, ..bumps[i as int] }),
        Field::Theta(i) => bumps.update(i as int, BumpParams { theta: value, ..bumps[i as int] }),
        Field::Phi(i) => bumps.update(i as int, BumpParams { phi: value, ..bumps[i as int] }),
        Field::Lean(i) => bumps.update(i as int, BumpParams { lean_amount: value, ..bumps[i as int] }),
        Field::LeanDirection(i) => bumps.update(i as int, BumpParams { lean_direction_phi: value, ..bumps[i as int] }),
        Field::Bend(i) => bumps.update(i as int, BumpParams { bend_amount: value, ..bumps[i as int] }),
    }
}

impl BumpParams {
    /// The bump with its lean and its bend brought within their limits.
    pub open spec fn limited(self, on: Arithmetic, r_min: Scalar) -> BumpParams {
        BumpParams {
            lean_amount: self.lean_amount.lesser(Scalar(FRAC_PI_3)),
            bend_amount: self.bend_amount.lesser(self.bend_limit(on, r_min)),
            ..self
        }
    }

    /// Brings the lean and the bend within their limits.
    pub fn limit<M: Math>(&mut self, math: &M, r_min: Scalar)
        ensures
            forall|on: Arithmetic| #[trigger]
                computes(math, on) ==> *final(self) == old(self).limited(on, r_min),
            *final(self) == (BumpParams {
                lean_amount: old(self).lean_amount.lesser(Scalar(FRAC_PI_3)),
                bend_amount: final(self).bend_amount,
                ..*old(self)
            }),
    {
        let max_lean = self.max_lean();
        let max_bend = self.max_bend(math, r_min);
        self.lean_amount = self.lean_amount.min(max_lean);
        self.bend_amount = self.bend_amount.min(max_bend);
    }
}

/// The bumps as they are once the control at a position is shown: a bump is
/// brought within its limits just before they are shown.
pub open spec fn bumps_after(on: Arithmetic, r_min: Scalar, bumps: Seq<BumpParams>, position: int) -> Seq<BumpParams> {
    let i = bump_at(position);
    if position >= HEADER && part_at(position) == LEAN_PART && i < bumps.len() {
        bumps.update(i, bumps[i].limited(on, r_min))
    } else {
        bumps
    }
}

/// The bumps as they are once so many controls have been shown, and nothing
/// entered.
pub open spec fn bumps_through(on: Arithmetic, r_min: Scalar, bumps: Seq<BumpParams>, shown: nat) -> Seq<BumpParams>
    decreases shown,
{
    if shown == 0 {
        bumps
    } else {
        bumps_after(on, r_min, bumps_through(on, r_min, bumps, (shown - 1) as nat), shown - 1)
    }
}

impl BlobParams {
    /// The control at a position of the panel, the first at zero.
    pub open spec fn control(self, on: Arithmetic, position: int) -> Option<Shown> {
        let (i, part) = (bump_at(position), part_at(position));
        if position < HEADER {
            Some(header_control(self.bend_mode, position))
        } else if i < self.bumps@.len() {
            Some(bump_control(i as usize, part, self.bumps@[i].bend_limit(on, self.r_min)))
        } else {
            None
        }
    }

    /// The bumps as they are once the control at a position is shown.
    pub open spec fn bumps_shown(self, on: Arithmetic, position: int) -> Seq<BumpParams> {
        bumps_after(on, self.r_min, self.bumps@, position)
    }

    /// The value of a field.
    pub open spec fn field(self, field: Field) -> Scalar {
        match field {
            Field::Volume => self.target_volume,
            Field::Amplitude(i) => self.bumps@[i as int].amplitude,
            Field::Concentration(i) => self.bumps@[i as int].concentration,
            Field::Theta(i) => self.bumps@[i as int].theta,
            Field::Phi(i) => self.bumps@[i as int].phi,
            Field::Lean(i) => self.bumps@[i as int].lean_amount,
            Field::LeanDirection(i) => self.bumps@[i as int].lean_direction_phi,
            Field::Bend(i) => self.bumps@[i as int].bend_amount,
        }
    }

    /// Shows the control at a position of the panel, or says that the panel
    /// ends there.
    pub fn show<M: Math>(&mut self, math: &M, position: usize) -> (r: Option<Control>)
        ensures
            r is Some <==> position < HEADER + PER_BUMP * old(self).bumps@.len(),
            r is Some ==> forall|on: Arithmetic| #[trigger]
                computes(math, on) ==> Some(r->0@) == old(self).control(on, position as int),
            r is Some && (position < HEADER || part_at(position as int) != BEND_PART) ==> forall|on: Arithmetic|
                Some(r->0@) == #[trigger] old(self).control(on, position as int),
            r is Some && r->0@ is Slider ==> r->0@->field.within(old(self).bumps@.len()),
            r matches Some(Control::Slider { field, name, low, high }) ==> {
                let i = if position < 5 {
                    0
                } else {
                    ((position - 5) / 9) as usize
                };
                &&& name@ == "volume"@ <==> field == Field::Volume
                &&& name@ == "amplitude"@ <==> field == Field::Amplitude(i)
                &&& name@ == "concentration"@ <==> field == Field::Concentration(i)
                &&& name@ == "theta"@ <==> field == Field::Theta(i)
                &&& name@ == "phi"@ <==> field == Field::Phi(i)
                &&& name@ == "lean"@ <==> field == Field::Lean(i)
                &&& name@ == "lean direction"@ <==> field == Field::LeanDirection(i)
                &&& name@ == "bend"@ <==> field == Field::Bend(i)
            },
            r is Some && position >= HEADER && part_at(position as int) == BEND_PART ==> r->0@ == bump_control(
                bump_at(position as int) as usize,
                BEND_PART as int,
                r->0@->high,
            ),
            forall|on: Arithmetic| #[trigger]
                computes(math, on) ==> final(self).bumps@ == old(self).bumps_shown(on, position as int),
            position < HEADER || part_at(position as int) != LEAN_PART ==> final(self).bumps@ == old(self).bumps@,
            final(self).r_min == old(self).r_min,
            final(self).target_volume == old(self).target_volume,
            final(self).bend_mode == old(self).bend_mode,
            final(self).bumps@.len() == old(self).bumps@.len(),
    {
        proof {
            lemma_names();
        }
        if position < HEADER {
            Some(self.show_header(position))
        } else {
            let i = (position - HEADER) / PER_BUMP;
            let part = (position - HEADER) % PER_BUMP;
            if i < self.bumps.len() {
                if part == LEAN_PART {
                    let mut bump = self.bumps[i];
                    bump.limit(math, self.r_min);
                    self.bumps[i] = bump;
                }
                Some(self.show_bump(math, i, part))
            } else {
                None
            }
        }
    }

    /// Shows a control above those of the bumps.
    fn show_header(&self, part: usize) -> (r: Control)
        requires
            part < HEADER,
        ensures
            r@ == header_control(self.bend_mode, part as int),
    {
        match part {
            0 => Control::Slider { field: Field::Volume, name: "volume", low: Scalar(HUNDREDTH), high: Scalar(TEN) },
            1 => Control::Separator,
            2 => Control::Label(String::from_str("Bend Mode")),
            3 => {
                let r = Control::Modes([(0, "Ghost Sphere"), (1, "Joint Rotation"), (2, "Translation")]);
                assert(r@->Modes_0 =~= header_control(self.bend_mode, 3)->Modes_0);
                r
            },
            _ => Control::Note(mode_description(self.bend_mode)),
        }
    }

    /// Shows a control of bump `i`.
    fn show_bump<M: Math>(&self, math: &M, i: usize, part: usize) -> (r: Control)
        requires
            i < self.bumps@.len(),
            part < PER_BUMP,
        ensures
            forall|on: Arithmetic| #[trigger]
                computes(math, on) ==> r@ == bump_control(
                    i,
                    part as int,
                    self.bumps@[i as int].bend_limit(on, self.r_min),
                ),
            part != BEND_PART ==> forall|limit: Scalar| r@ == #[trigger] bump_control(i, part as int, limit),
            part == BEND_PART ==> r@ == bump_control(i, part as int, r@->high),
    {
        let zero = Scalar(ZERO);
        match part {
            0 => Control::Separator,
            1 => {
                let mut text = String::from_str("Bump ");
                assert(i < self.bumps.len());
                append_decimal(&mut text, i + 1);
                Control::Label(text)
            },
            2 => Control::Slider { field: Field::Amplitude(i), name: "amplitude", low: zero, high: Scalar(ONE) },
            3 => Control::Slider {
                field: Field::Concentration(i),
                name: "concentration",
                low: Scalar(HALF),
                high: Scalar(TWENTY),
            },
            4 => Control::Slider { field: Field::Theta(i), name: "theta", low: zero, high: Scalar(PI) },
            5 => Control::Slider { field: Field::Phi(i), name: "phi", low: zero, high: Scalar(TAU) },
            6 => Control::Slider { field: Field::Lean(i), name: "lean", low: zero, high: self.bumps[i].max_lean() },
            7 => Control::Slider {
                field: Field::LeanDirection(i),
                name: "lean direction",
                low: zero,
                high: Scalar(TAU),
            },
            _ => Control::Slider {
                field: Field::Bend(i),
                name: "bend",
                low: zero,
                high: self.bumps[i].max_bend(math, self.r_min),
            },
        }
    }
}

impl BlobParams {
    /// The value of a field.
    pub fn value(&self, field: Field) -> (r: Scalar)
        requires
            field.within(self.bumps@.len()),
        ensures
            r == self.field(field),
    {
        match field {
            Field::Volume => self.target_volume,
            Field::Amplitude(i) => self.bumps[i].amplitude,
            Field::Concentration(i) => self.bumps[i].concentration,
            Field::Theta(i) => self.bumps[i].theta,
            Field::Phi(i) => self.bumps[i].phi,
            Field::Lean(i) => self.bumps[i].lean_amount,
            Field::LeanDirection(i) => self.bumps[i].lean_direction_phi,
            Field::Bend(i) => self.bumps[i].bend_amount,
        }
    }

    /// Enters a value into a field. No other field changes.
    pub fn enter(&mut self, field: Field, value: Scalar)
        requires
            field.within(old(self).bumps@.len()),
        ensures
            final(self).field(field) == value,
            forall|other: Field|
                other != field && other.within(old(self).bumps@.len()) ==> #[trigger] final(self).field(other) == old(
                    self,
                ).field(other),
            final(self).bumps@ == with_entry(old(self).bumps@, field, value),
            final(self).target_volume == if field is Volume {
                value
            } else {
                old(self).target_volume
            },
            final(self).r_min == old(self).r_min,
            final(self).bend_mode == old(self).bend_mode,
    {
        match field {
            Field::Volume => {
                self.target_volume = value;
            },
            Field::Amplitude(i) => {
                self.bumps[i].amplitude = value;
            },
            Field::Concentration(i) => {
                self.bumps[i].concentration = value;
            },
            Field::Theta(i) => {
                self.bumps[i].theta = value;
            },
            Field::Phi(i) => {
                self.bumps[i].phi = value;
            },
            Field::Lean(i) => {
                self.bumps[i].lean_amount = value;
            },
            Field::LeanDirection(i) => {
                self.bumps[i].lean_direction_phi = value;
            },
            Field::Bend(i) => {
                self.bumps[i].bend_amount = value;
            },
        }
    }

    /// Chooses one of the bend modes that the panel offers. Any other choice
    /// leaves the mode as it is.
    pub fn choose_mode(&mut self, mode: u32)
        ensures
            final(self).bend_mode == if mode < MODES {
                mode
            } else {
                old(self).bend_mode
            },
            old(self).bend_mode < MODES ==> final(self).bend_mode < MODES,
            mode == 0 || mode == 1 || mode == 2 ==> final(self).bend_mode == mode,
            mode > 2 ==> final(self).bend_mode == old(self).bend_mode,
            final(self).r_min == old(self).r_min,
            final(self).bumps == old(self).bumps,
            final(self).target_volume == old(self).target_volume,
    {
        if mode < MODES {
            self.bend_mode = mode;
        }
    }
}

/// A bump that has been brought within its limits leans no further than the
/// greatest lean, and bends no further than its bend limit where that is a
/// number, as it always is in a correctly rounded arithmetic. Its bend limit is
/// what it was, so that bringing it within its limits once more changes nothing.
pub proof fn limited_is_within(bump: BumpParams, on: Arithmetic, r_min: Scalar)
    ensures
        bump.limited(on, r_min).lean_amount.at_most(Scalar(FRAC_PI_3)),
        !bump.bend_limit(on, r_min).nan() ==> bump.limited(on, r_min).bend_amount.at_most(
            bump.bend_limit(on, r_min),
        ),
        correctly_rounded(on) ==> bump.limited(on, r_min).bend_amount.at_most(bump.bend_limit(on, r_min)),
        bump.limited(on, r_min).bend_limit(on, r_min) == bump.bend_limit(on, r_min),
        bump.limited(on, r_min).limited(on, r_min) == bump.limited(on, r_min),
{
    lesser_is_bounded(bump.lean_amount, Scalar(FRAC_PI_3));
    if !bump.bend_limit(on, r_min).nan() {
        lesser_is_bounded(bump.bend_amount, bump.bend_limit(on, r_min));
    }
    if correctly_rounded(on) {
        bend_limit_is_in_range(bump, on, r_min);
    }
    bend_limit_follows_shape(bump, bump.limited(on, r_min), on, r_min);
}

/// Bringing a bump within its limits leaves a lean and a bend alone that are
/// within them, brings any other down to the limit, and changes nothing else. The
/// limit of the lean is a sixth of a turn, and that of the bend the bend limit.
pub proof fn limiting_changes_what_is_beyond(bump: BumpParams, on: Arithmetic, r_min: Scalar)
    ensures
        ({
            let (after, most) = (bump.limited(on, r_min), bump.bend_limit(on, r_min));
            &&& bump.lean_amount.at_most(Scalar(FRAC_PI_3)) ==> after.lean_amount == bump.lean_amount
            &&& !bump.lean_amount.at_most(Scalar(FRAC_PI_3)) ==> after.lean_amount == Scalar(FRAC_PI_3)
            &&& bump.bend_amount.at_most(most) ==> after.bend_amount == bump.bend_amount
            &&& bump.bend_amount.nan() || most.below(bump.bend_amount) ==> after.bend_amount == most
            &&& after.theta == bump.theta
            &&& after.phi == bump.phi
            &&& after.amplitude == bump.amplitude
            &&& after.concentration == bump.concentration
            &&& after.lean_direction_phi == bump.lean_direction_phi
        }),
{
    lesser_is_one_of_both(bump.lean_amount, Scalar(FRAC_PI_3));
    lesser_is_one_of_both(bump.bend_amount, bump.bend_limit(on, r_min));
}

/// Once some controls have been shown, the bumps whose lean slider was among
/// them are within their limits, and the others are as before.
proof fn lemma_bumps_through(on: Arithmetic, r_min: Scalar, bumps: Seq<BumpParams>, shown: nat)
    ensures
        bumps_through(on, r_min, bumps, shown).len() == bumps.len(),
        forall|i: int|
            0 <= i < bumps.len() ==> #[trigger] bumps_through(on, r_min, bumps, shown)[i] == if HEADER + PER_BUMP * i
                + LEAN_PART < shown {
                bumps[i].limited(on, r_min)
            } else {
                bumps[i]
            },
    decreases shown,
{
    if shown > 0 {
        lemma_bumps_through(on, r_min, bumps, (shown - 1) as nat);
    }
}

/// Showing the whole panel brings every bump within its limits, each once.
pub proof fn panel_limits_every_bump(on: Arithmetic, r_min: Scalar, bumps: Seq<BumpParams>)
    ensures
        bumps_through(on, r_min, bumps, HEADER as nat + PER_BUMP as nat * bumps.len()) == bumps.map_values(
            |bump: BumpParams| bump.limited(on, r_min),
        ),
{
    let shown = HEADER as nat + PER_BUMP as nat * bumps.len();
    lemma_bumps_through(on, r_min, bumps, shown);
    assert(bumps_through(on, r_min, bumps, shown) =~= bumps.map_values(|bump: BumpParams| bump.limited(on, r_min)));
}

/// The panel shows the bumps one after the other, each whole: control `part`
/// of bump `i` stands right after the header and the controls of the bumps
/// before it.
pub proof fn bump_controls_in_order(params: BlobParams, on: Arithmetic, i: int, part: int)
    requires
        0 <= i < params.bumps@.len(),
        0 <= part < PER_BUMP,
    ensures
        params.control(on, HEADER + PER_BUMP * i + part) == Some(
            bump_control(i as usize, part, params.bumps@[i].bend_limit(on, params.r_min)),
        ),
{
    assert((9 * i + part) / 9 == i && (9 * i + part) % 9 == part);
}

impl BlobParams {
    /// The blob is `before` once the control at a position was shown and the
    /// user had their turn with it: a slider was left alone or set within its
    /// range, a mode was chosen or not, and any other control changes nothing.
    pub open spec fn set_from(self, on: Arithmetic, before: BlobParams, position: int) -> bool {
        let bumps = before.bumps_shown(on, position);
        &&& self.r_min == before.r_min
        &&& match before.control(on, position) {
            Some(Shown::Slider { field, name: _, low, high }) => {
                &&& self.bend_mode == before.bend_mode
                &&& {
                    ||| self.bumps@ == bumps && self.target_volume == before.target_volume
                    ||| exists|value: Scalar|
                        {
                            &&& low.at_most(value)
                            &&& value.at_most(high)
                            &&& self.bumps@ == #[trigger] with_entry(bumps, field, value)
                            &&& self.target_volume == if field is Volume {
                                value
                            } else {
                                before.target_volume
                            }
                        }
                }
            },
            Some(Shown::Modes(_)) => {
                &&& self.bumps@ == bumps
                &&& self.target_volume == before.target_volume
                &&& self.bend_mode == before.bend_mode || self.bend_mode < MODES
            },
            _ => {
                &&& self.bumps@ == bumps
                &&& self.target_volume == before.target_volume
                &&& self.bend_mode == before.bend_mode
            },
        }
    }
}

/// A run through some controls of the panel, from the first: the blob at the
/// start, and after each control.
pub open spec fn panel_run(on: Arithmetic, states: Seq<BlobParams>) -> bool {
    &&& states.len() >= 1
    &&& forall|k: int| 0 <= k < states.len() - 1 ==> #[trigger] states[k + 1].set_from(on, states[k], k)
}

/// The lean and the bend of a bump are within their limits, as far as these
/// are numbers.
pub open spec fn within_limits(on: Arithmetic, r_min: Scalar, bump: BumpParams) -> bool {
    &&& bump.lean_amount.at_most(Scalar(FRAC_PI_3))
    &&& !bump.bend_limit(on, r_min).nan() ==> bump.bend_amount.at_most(bump.bend_limit(on, r_min))
}

/// The turn of the user at one control leaves each bump within its limits that
/// has had its lean slider, that one included.
proof fn lemma_set_keeps_limits(on: Arithmetic, before: BlobParams, after: BlobParams, position: int, i: int)
    requires
        after.set_from(on, before, position),
        0 <= position,
        0 <= i < before.bumps@.len(),
        before.bumps@.len() <= usize::MAX,
        HEADER + PER_BUMP * i + LEAN_PART <= position,
        HEADER + PER_BUMP * i + LEAN_PART < position ==> within_limits(on, before.r_min, before.bumps@[i]),
    ensures
        within_limits(on, after.r_min, after.bumps@[i]),
{
    let r_min = before.r_min;
    let old_bump = before.bumps@[i];
    let shown = before.bumps_shown(on, position)[i];
    assert(bump_at(position) >= i);
    limited_is_within(old_bump, on, r_min);
    assert(within_limits(on, r_min, shown));
    assert(shown.bend_limit(on, r_min) == old_bump.bend_limit(on, r_min));
    bend_limit_follows_shape(shown, after.bumps@[i], on, r_min);
}

/// The turn of the user at one control keeps the number of bumps, and the mode
/// one of those offered.
proof fn lemma_set_keeps_count(on: Arithmetic, before: BlobParams, after: BlobParams, position: int)
    requires
        after.set_from(on, before, position),
    ensures
        after.bumps@.len() == before.bumps@.len(),
        after.r_min == before.r_min,
        before.bend_mode < MODES ==> after.bend_mode < MODES,
{
}

/// However the user goes through the panel, bumps are edited in place, never
/// added or removed, the radius stays, and the mode stays one of those offered.
/// Conserving the volume afterwards keeps the number of bumps and the mode too,
/// so that a whole frame does.
pub proof fn panel_run_keeps_count_and_mode(on: Arithmetic, states: Seq<BlobParams>, conserved: BlobParams)
    requires
        panel_run(on, states),
        conserved.conserved_from(on, states.last()),
    ensures
        states.last().bumps@.len() == states[0].bumps@.len(),
        states.last().r_min == states[0].r_min,
        states[0].bend_mode < MODES ==> states.last().bend_mode < MODES,
        conserved.bumps@.len() == states[0].bumps@.len(),
        states[0].bend_mode < MODES ==> conserved.bend_mode < MODES,
{
    lemma_run_keeps_count(on, states);
}

/// A run through the panel keeps the number of bumps and the mode.
proof fn lemma_run_keeps_count(on: Arithmetic, states: Seq<BlobParams>)
    requires
        panel_run(on, states),
    ensures
        states.last().bumps@.len() == states[0].bumps@.len(),
        states.last().r_min == states[0].r_min,
        states[0].bend_mode < MODES ==> states.last().bend_mode < MODES,
    decreases states.len(),
{
    if states.len() > 1 {
        let earlier = states.drop_last();
        assert forall|k: int| 0 <= k < earlier.len() - 1 implies #[trigger] earlier[k + 1].set_from(
            on,
            earlier[k],
            k,
        ) by {
            assert(states[k + 1].set_from(on, states[k], k));
        }
        lemma_run_keeps_count(on, earlier);
        let k = states.len() - 2;
        assert(states[k + 1].set_from(on, states[k], k));
        lemma_set_keeps_count(on, states[k], states[k + 1], k);
    }
}

/// After a run through some controls, each bump that has had its lean slider is
/// within its limits.
proof fn lemma_run_limits(on: Arithmetic, states: Seq<BlobParams>, i: int)
    requires
        panel_run(on, states),
        0 <= i < states[0].bumps@.len() <= usize::MAX,
        HEADER + PER_BUMP * i + LEAN_PART < states.len() - 1,
    ensures
        within_limits(on, states.last().r_min, states.last().bumps@[i]),
    decreases states.len(),
{
    let earlier = states.drop_last();
    assert forall|k: int| 0 <= k < earlier.len() - 1 implies #[trigger] earlier[k + 1].set_from(on, earlier[k], k) by {
        assert(states[k + 1].set_from(on, states[k], k));
    }
    lemma_run_keeps_count(on, earlier);
    let k = states.len() - 2;
    assert(states[k + 1].set_from(on, states[k], k));
    if HEADER + PER_BUMP * i + LEAN_PART < k {
        lemma_run_limits(on, earlier, i);
    }
    lemma_set_keeps_limits(on, states[k], states[k + 1], k, i);
}

/// However the user goes through the whole panel, with each value set within
/// the range just shown, every bump ends up within its limits: no lean past the
/// greatest one and, in a correctly rounded arithmetic, no bend past the bend
/// limit.
pub proof fn panel_run_limits_every_bump(on: Arithmetic, states: Seq<BlobParams>, i: int)
    requires
        panel_run(on, states),
        0 <= i < states[0].bumps@.len() <= usize::MAX,
        states.len() == HEADER + PER_BUMP * states[0].bumps@.len() + 1,
    ensures
        states.last().bumps@.len() == states[0].bumps@.len(),
        within_limits(on, states.last().r_min, states.last().bumps@[i]),
        correctly_rounded(on) ==> states.last().bumps@[i].bend_amount.at_most(
            states.last().bumps@[i].bend_limit(on, states.last().r_min),
        ),
{
    lemma_run_keeps_count(on, states);
    lemma_run_limits(on, states, i);
    if correctly_rounded(on) {
        bend_limit_is_in_range(states.last().bumps@[i], on, states.last().r_min);
    }
}

/// A slider shows and sets the parameter that it names, of the bump that it
/// stands with, and no other; it sets it within the range of that parameter.
pub proof fn slider_sets_what_it_names(params: BlobParams, on: Arithmetic, position: int, value: Scalar)
    requires
        0 <= position,
        params.bumps@.len() <= usize::MAX,
        params.control(on, position) is Some,
        params.control(on, position)->0 is Slider,
    ensures
        ({
            let control = params.control(on, position)->0;
            let (field, name, low, high) = (control->field, control->Slider_name, control->low, control->high);
            let (bumps, i) = (params.bumps@, (position - 5) / 9);
            let (bump, after) = (params.bumps@[i], with_entry(params.bumps@, field, value));
            &&& name == "volume"@ <==> position == 0
            &&& name != "volume"@ ==> 0 <= i < bumps.len()
            &&& name == "volume"@ ==> {
                &&& field is Volume
                &&& params.field(field) == params.target_volume
                &&& after == bumps
                &&& low == Scalar(HUNDREDTH) && high == Scalar(TEN)
            }
            &&& name == "amplitude"@ ==> {
                &&& params.field(field) == bump.amplitude
                &&& after == bumps.update(i, BumpParams { amplitude: value, ..bump })
                &&& low == Scalar(ZERO) && high == Scalar(ONE)
            }
            &&& name == "concentration"@ ==> {
                &&& params.field(field) == bump.concentration
                &&& after == bumps.update(i, BumpParams { concentration: value, ..bump })
                &&& low == Scalar(HALF) && high == Scalar(TWENTY)
            }
            &&& name == "theta"@ ==> {
                &&& params.field(field) == bump.theta
                &&& after == bumps.update(i, BumpParams { theta: value, ..bump })
                &&& low == Scalar(ZERO) && high == Scalar(PI)
            }
            &&& name == "phi"@ ==> {
                &&& params.field(field) == bump.phi
                &&& after == bumps.update(i, BumpParams { phi: value, ..bump })
                &&& low == Scalar(ZERO) && high == Scalar(TAU)
            }
            &&& name == "lean"@ ==> {
                &&& params.field(field) == bump.lean_amount
                &&& after == bumps.update(i, BumpParams { lean_amount: value, ..bump })
                &&& low == Scalar(ZERO) && high == Scalar(FRAC_PI_3)
            }
            &&& name == "lean direction"@ ==> {
                &&& params.field(field) == bump.lean_direction_phi
                &&& after == bumps.update(i, BumpParams { lean_direction_phi: value, ..bump })
                &&& low == Scalar(ZERO) && high == Scalar(TAU)
            }
            &&& name == "bend"@ ==> {
                &&& params.field(field) == bump.bend_amount
                &&& after == bumps.update(i, BumpParams { bend_amount: value, ..bump })
                &&& low == Scalar(ZERO) && high == bump.bend_limit(on, params.r_min)
            }
            &&& {
                ||| name == "volume"@
                ||| name == "amplitude"@
                ||| name == "concentration"@
                ||| name == "theta"@
                ||| name == "phi"@
                ||| name == "lean"@
                ||| name == "lean direction"@
                ||| name == "bend"@
            }
        }),
{
    lemma_names();
    let i = (position - 5) / 9;
    if position >= 5 {
        assert(0 <= i < params.bumps@.len());
    }
}

/// The names of the sliders are all different.
proof fn lemma_names()
    ensures
        "volume"@.len() == 6,
        "amplitude"@.len() == 9,
        "concentration"@.len() == 13,
        "theta"@.len() == 5,
        "phi"@.len() == 3,
        "lean"@.len() == 4,
        "lean direction"@.len() == 14,
        "bend"@.len() == 4,
        "lean"@[0] != "bend"@[0],
{
    reveal_strlit("volume");
    reveal_strlit("amplitude");
    reveal_strlit("concentration");
    reveal_strlit("theta");
    reveal_strlit("phi");
    reveal_strlit("lean");
    reveal_strlit("lean direction");
    reveal_strlit("bend");
}

/// The panel of a blob, from top to bottom: a slider for the volume, the bend
/// modes with what is said of the chosen one, and for each bump its number and
/// a slider for each of its seven parameters. There is nothing below.
pub proof fn panel_from_top_to_bottom(params: BlobParams, on: Arithmetic, i: int)
    requires
        0 <= i < params.bumps@.len() <= usize::MAX,
    ensures
        params.control(on, 0) matches Some(Shown::Slider { name, .. }) && name == "volume"@,
        params.control(on, 1) == Some(Shown::Separator),
        params.control(on, 2) == Some(Shown::Label("Bend Mode"@)),
        params.control(on, 3) matches Some(Shown::Modes(modes)) && {
            &&& modes.len() == 3
            &&& modes[0] == (0u32, "Ghost Sphere"@)
            &&& modes[1] == (1u32, "Joint Rotation"@)
            &&& modes[2] == (2u32, "Translation"@)
        },
        params.control(on, 4) matches Some(Shown::Note(text)) && {
            &&& params.bend_mode == 0 ==> text == "Shifted evaluation origin — soft coherent curvature"@
            &&& params.bend_mode == 1 ==> text == "Surface point pivots around bump foot — true geometric bend"@
            &&& params.bend_mode == 2 ==> text == "Direction offset — cheap baseline, tends to compress"@
            &&& params.bend_mode > 2 ==> text == ""@
        },
        params.control(on, 5 + 9 * i) == Some(Shown::Separator),
        params.control(on, 5 + 9 * i + 1) matches Some(Shown::Label(text)) && {
            &&& text.len() > 5
            &&& text.take(5) == "Bump "@
            &&& read_decimal(text.skip(5)) == i + 1
        },
        params.control(on, 5 + 9 * i + 2) matches Some(Shown::Slider { name, .. }) && name == "amplitude"@,
        params.control(on, 5 + 9 * i + 3) matches Some(Shown::Slider { name, .. }) && name == "concentration"@,
        params.control(on, 5 + 9 * i + 4) matches Some(Shown::Slider { name, .. }) && name == "theta"@,
        params.control(on, 5 + 9 * i + 5) matches Some(Shown::Slider { name, .. }) && name == "phi"@,
        params.control(on, 5 + 9 * i + 6) matches Some(Shown::Slider { name, .. }) && name == "lean"@,
        params.control(on, 5 + 9 * i + 7) matches Some(Shown::Slider { name, .. }) && name == "lean direction"@,
        params.control(on, 5 + 9 * i + 8) matches Some(Shown::Slider { name, .. }) && name == "bend"@,
        forall|position: int|
            position >= 5 + 9 * params.bumps@.len() ==> #[trigger] params.control(on, position) is None,
{
    bump_controls_in_order(params, on, i, 0);
    bump_controls_in_order(params, on, i, 1);
    bump_controls_in_order(params, on, i, 2);
    bump_controls_in_order(params, on, i, 3);
    bump_controls_in_order(params, on, i, 4);
    bump_controls_in_order(params, on, i, 5);
    bump_controls_in_order(params, on, i, 6);
    bump_controls_in_order(params, on, i, 7);
    bump_controls_in_order(params, on, i, 8);
    reveal_strlit("Bump ");
    let number = decimal((i + 1) as nat);
    lemma_decimal_reads((i + 1) as nat);
    assert(("Bump "@ + number).take(5) =~= "Bump "@);
    assert(("Bump "@ + number).skip(5) =~= number);
    assert forall|position: int| position >= 5 + 9 * params.bumps@.len() implies #[trigger] params.control(on, position)
        is None by {
        assert((position - 5) / 9 >= params.bumps@.len());
    }
}

/// The number that a text of decimal digits stands for.
pub open spec fn read_decimal(text: Seq<char>) -> int
    decreases text.len(),
{
    if text.len() == 0 {
        0
    } else {
        10 * read_decimal(text.drop_last()) + (text.last() as int - '0' as int)
    }
}

/// A number, written in decimal digits, reads as that number.
proof fn lemma_decimal_reads(n: nat)
    ensures
        read_decimal(decimal(n)) == n,
        decimal(n).len() > 0,
    decreases n,
{
    if n >= 10 {
        lemma_decimal_reads(n / 10);
        let high = decimal(n / 10);
        assert(high.push(digit(n % 10)).drop_last() =~= high);
    } else {
        assert(seq![digit(n)].drop_last() =~= Seq::<char>::empty());
        assert(read_decimal(Seq::<char>::empty()) == 0);
    }
}

/// A bump is brought within its limits when the slider of its lean is shown, so
/// that the sliders of its lean and of its bend show it within them. No other
/// control changes a bump by being shown, and no bump but its own.
pub proof fn limits_apply_at_lean_slider(params: BlobParams, on: Arithmetic, i: int, part: int, j: int)
    requires
        0 <= i < params.bumps@.len(),
        0 <= part < 9,
        0 <= j < params.bumps@.len(),
    ensures
        params.bumps_shown(on, 5 + 9 * i + part).len() == params.bumps@.len(),
        params.bumps_shown(on, 5 + 9 * i + part)[j] == if j == i && part == 6 {
            params.bumps@[i].limited(on, params.r_min)
        } else {
            params.bumps@[j]
        },
        forall|position: int|
            position < 5 || position >= 5 + 9 * params.bumps@.len() ==> #[trigger] params.bumps_shown(on, position)
                == params.bumps@,
{
    assert((9 * i + part) / 9 == i && (9 * i + part) % 9 == part);
    assert forall|position: int|
        position < 5 || position >= 5 + 9 * params.bumps@.len() implies #[trigger] params.bumps_shown(on, position)
        == params.bumps@ by {
        if position >= 5 {
            assert((position - 5) / 9 >= params.bumps@.len());
        }
    }
}

} // verus!
