//! The command line: options, their values, and the errors they can raise.
use vstd::prelude::*;

use crate::text::{
    self, chars_equal, chars_of, check_float_literal, is_nan_text, parse_u32, split_chars, trim_chars,
    FloatErrorKind, IntErrorKind,
};

verus! {

/// Why a `--crop` argument was refused.
#[derive(Debug, Clone, Copy, PartialEq, Eq, Structural)]
pub enum CropError {
    /// A coordinate is not a decimal `u32`.
    Number(IntErrorKind),
    /// Not four coordinates, or the rectangle is empty or inverted.
    Format,
}

/// Reads every field, trimmed, as a `u32`; the first field that fails decides the error.
pub open spec fn parse_fields(fields: Seq<Seq<char>>) -> Result<Seq<u32>, IntErrorKind>
    decreases fields.len(),
{
    if fields.len() == 0 {
        Ok(Seq::empty())
    } else {
        match parse_fields(fields.drop_last()) {
            Err(e) => Err(e),
            Ok(values) => match text::u32_from_str(text::trim(fields.last())) {
                Err(e) => Err(e),
                Ok(v) => Ok(values.push(v)),
            },
        }
    }
}

/// The rectangle `x1,y1,x2,y2` that a `--crop` argument names.
pub open spec fn crop_from_str(s: Seq<char>) -> Result<(u32, u32, u32, u32), CropError> {
    match parse_fields(text::split_on(s, ',')) {
        Err(e) => Err(CropError::Number(e)),
        Ok(c) => if c.len() == 4 && c[0] < c[2] && c[1] < c[3] {
            Ok((c[0], c[1], c[2], c[3]))
        } else {
            Err(CropError::Format)
        },
    }
}

proof fn lemma_parse_fields_error_stays(fields: Seq<Seq<char>>, j: int, k: int, e: IntErrorKind)
    requires
        0 <= j <= k <= fields.len(),
        parse_fields(fields.take(j)) == Err::<Seq<u32>, IntErrorKind>(e),
    ensures
        parse_fields(fields.take(k)) == Err::<Seq<u32>, IntErrorKind>(e),
    decreases k - j,
{
    if k > j {
        lemma_parse_fields_error_stays(fields, j, k - 1, e);
        assert(fields.take(k).drop_last() =~= fields.take(k - 1));
    }
}

/// Reads `x1,y1,x2,y2`, the top-left and bottom-right corners of a rectangle.
pub fn parse_crop(raw: &str) -> (r: Result<(u32, u32, u32, u32), CropError>)
    ensures
        r == crop_from_str(raw@),
{
    let chars = chars_of(raw);
    let fields = split_chars(&chars, ',');
    let ghost f = fields.deep_view();
    let mut coords: Vec<u32> = Vec::new();
    let n = fields.len();
    assert(f.take(0) =~= Seq::<Seq<char>>::empty());
    for i in 0..n
        invariant
            n == fields.len(),
            f == fields.deep_view(),
            f == text::split_on(raw@, ','),
            parse_fields(f.take(i as int)) == Ok::<Seq<u32>, IntErrorKind>(coords@),
    {
        assert(f.take(i + 1).drop_last() =~= f.take(i as int));
        assert(fields@[i as int]@ =~= f[i as int]);
        let field = trim_chars(&fields[i]);
        match parse_u32(&field) {
            Err(e) => {
                proof {
                    lemma_parse_fields_error_stays(f, i + 1, n as int, e);
                    assert(f.take(n as int) =~= f);
                }
                return Err(CropError::Number(e));
            },
            Ok(v) => {
                coords.push(v);
            },
        }
    }
    assert(f.take(n as int) =~= f);
    if coords.len() == 4 && coords[0] < coords[2] && coords[1] < coords[3] {
        Ok((coords[0], coords[1], coords[2], coords[3]))
    } else {
        Err(CropError::Format)
    }
}

} // verus!

verus! {

/// An option that takes a value, by the name its error messages give it.
#[derive(Debug, Clone, Copy, PartialEq, Eq, Structural)]
pub enum OptionName {
    Output,
    Crop,
    Cols,
    Gamma,
    Size,
}

/// Why the command line was refused.
#[derive(Debug, Clone, Copy, PartialEq, Eq, Structural)]
pub enum ArgError {
    /// The option is the last argument and has no value.
    MissingValue(OptionName),
    /// The `--crop` value is malformed.
    Crop(CropError),
    /// The `--cols` value is not a decimal `u32`.
    Cols(IntErrorKind),
    /// The `--gamma` value is not a float literal.
    Gamma(FloatErrorKind),
    /// The `--size` value is not a float literal.
    Size(FloatErrorKind),
    /// The argument at this position starts with `-` and names no option.
    UnknownOption(usize),
    /// No input image was given.
    NoInput,
    /// `--cols` is below `MIN_COLS`.
    TooFewCols,
    /// `--gamma` reads as NaN.
    GammaNotANumber,
}

/// The fewest glyph columns accepted.
pub const MIN_COLS: u32 = 10;

/// Glyph columns when `--cols` is not given.
pub const DEFAULT_COLS: u32 = 100;

/// The options of one run.
///
/// `gamma` and `font_px` keep the literal text of `--gamma` and `--size` (checked
/// against the `f32` literal grammar); `None` stands for their defaults, 1.6 and 14.
pub struct Opts {
    pub input: String,
    pub output: String,
    pub crop: Option<(u32, u32, u32, u32)>,
    pub cols: u32,
    pub gamma: Option<String>,
    pub font_px: Option<String>,
    pub soft_bg: bool,
    pub light: bool,
}

/// What the options hold, with text as characters.
pub struct OptsView {
    pub input: Seq<char>,
    pub output: Seq<char>,
    pub crop: Option<(u32, u32, u32, u32)>,
    pub cols: u32,
    pub gamma: Option<Seq<char>>,
    pub font_px: Option<Seq<char>>,
    pub soft_bg: bool,
    pub light: bool,
}

pub open spec fn text_view(t: Option<String>) -> Option<Seq<char>> {
    match t {
        Some(s) => Some(s@),
        None => None,
    }
}

impl View for Opts {
    type V = OptsView;

    open spec fn view(&self) -> OptsView {
        OptsView {
            input: self.input@,
            output: self.output@,
            crop: self.crop,
            cols: self.cols,
            gamma: text_view(self.gamma),
            font_px: text_view(self.font_px),
            soft_bg: self.soft_bg,
            light: self.light,
        }
    }
}

/// `ascii.png`, the output file when `-o` is not given.
pub open spec fn default_output() -> Seq<char> {
    seq!['a', 's', 'c', 'i', 'i', '.', 'p', 'n', 'g']
}

/// The options before any argument is read.
pub open spec fn default_opts() -> OptsView {
    OptsView {
        input: Seq::empty(),
        output: default_output(),
        crop: None,
        cols: DEFAULT_COLS,
        gamma: None,
        font_px: None,
        soft_bg: false,
        light: false,
    }
}

impl Default for Opts {
    fn default() -> (o: Self)
        ensures
            o@ == default_opts(),
    {
        let output = String::from_str("ascii.png");
        proof {
            reveal_strlit("ascii.png");
        }
        assert(output@ =~= default_output());
        Opts {
            input: String::new(),
            output,
            crop: None,
            cols: DEFAULT_COLS,
            gamma: None,
            font_px: None,
            soft_bg: false,
            light: false,
        }
    }
}

} // verus!

verus! {

/// The options the command line knows.
#[derive(Debug, Clone, Copy, PartialEq, Eq, Structural)]
pub enum Flag {
    Help,
    Output,
    Crop,
    Cols,
    Gamma,
    Size,
    SoftBg,
    Light,
}

/// The option that the argument `a` names: `-h`/`--help`, `-o`/`--output`, `--crop`,
/// `--cols`/`--width`, `--gamma`, `--size`, `--soft-bg`, `--light`.
pub open spec fn flag_of(a: Seq<char>) -> Option<Flag> {
    if a == seq!['-', 'h'] || a == seq!['-', '-', 'h', 'e', 'l', 'p'] {
        Some(Flag::Help)
    } else if a == seq!['-', 'o'] || a == seq!['-', '-', 'o', 'u', 't', 'p', 'u', 't'] {
        Some(Flag::Output)
    } else if a == seq!['-', '-', 'c', 'r', 'o', 'p'] {
        Some(Flag::Crop)
    } else if a == seq!['-', '-', 'c', 'o', 'l', 's'] || a == seq![
        '-',
        '-',
        'w',
        'i',
        'd',
        't',
        'h',
    ] {
        Some(Flag::Cols)
    } else if a == seq!['-', '-', 'g', 'a', 'm', 'm', 'a'] {
        Some(Flag::Gamma)
    } else if a == seq!['-', '-', 's', 'i', 'z', 'e'] {
        Some(Flag::Size)
    } else if a == seq!['-', '-', 's', 'o', 'f', 't', '-', 'b', 'g'] {
        Some(Flag::SoftBg)
    } else if a == seq!['-', '-', 'l', 'i', 'g', 'h', 't'] {
        Some(Flag::Light)
    } else {
        None
    }
}

/// The option whose value the flag reads, as its error messages name it.
pub open spec fn value_name(f: Flag) -> OptionName {
    match f {
        Flag::Output => OptionName::Output,
        Flag::Crop => OptionName::Crop,
        Flag::Cols => OptionName::Cols,
        Flag::Gamma => OptionName::Gamma,
        _ => OptionName::Size,
    }
}

/// Whether the flag takes a value.
pub open spec fn takes_value(f: Flag) -> bool {
    !(f is Help || f is SoftBg || f is Light)
}

/// The options after the value `v` of the flag `f` is read.
pub open spec fn apply_value(f: Flag, v: Seq<char>, o: OptsView) -> Result<OptsView, ArgError> {
    match f {
        Flag::Output => Ok(OptsView { output: v, ..o }),
        Flag::Crop => match crop_from_str(v) {
            Ok(c) => Ok(OptsView { crop: Some(c), ..o }),
            Err(e) => Err(ArgError::Crop(e)),
        },
        Flag::Cols => match text::u32_from_str(v) {
            Ok(n) => Ok(OptsView { cols: n, ..o }),
            Err(e) => Err(ArgError::Cols(e)),
        },
        Flag::Gamma => match text::float_literal_check(v) {
            Ok(()) => Ok(OptsView { gamma: Some(v), ..o }),
            Err(e) => Err(ArgError::Gamma(e)),
        },
        _ => match text::float_literal_check(v) {
            Ok(()) => Ok(OptsView { font_px: Some(v), ..o }),
            Err(e) => Err(ArgError::Size(e)),
        },
    }
}

/// Where reading the arguments from position `i` on ends.
pub enum Scan {
    /// Every argument was read.
    Finished(OptsView),
    /// `-h` or `--help` came first.
    Help,
    /// An argument was refused.
    Failed(ArgError),
}

/// Reads the arguments from position `i` on, each option consuming its value.
pub open spec fn scan(args: Seq<Seq<char>>, i: nat, o: OptsView) -> Scan
    decreases args.len() - i,
{
    if i >= args.len() {
        Scan::Finished(o)
    } else {
        let a = args[i as int];
        match flag_of(a) {
            Some(Flag::Help) => Scan::Help,
            Some(Flag::SoftBg) => scan(args, i + 1, OptsView { soft_bg: true, ..o }),
            Some(Flag::Light) => scan(args, i + 1, OptsView { light: true, ..o }),
            Some(f) => if i + 1 >= args.len() {
                Scan::Failed(ArgError::MissingValue(value_name(f)))
            } else {
                match apply_value(f, args[i + 1 as int], o) {
                    Ok(next) => scan(args, i + 2, next),
                    Err(e) => Scan::Failed(e),
                }
            },
            None => if a.len() > 0 && a[0] == '-' {
                Scan::Failed(ArgError::UnknownOption(i as usize))
            } else {
                scan(args, i + 1, OptsView { input: a, ..o })
            },
        }
    }
}

/// What a run is asked to do.
pub enum Command {
    /// Print the usage text and stop.
    Help,
    /// Convert an image with these options.
    Convert(Opts),
}

/// What a run is asked to do, with text as characters.
pub enum CommandView {
    Help,
    Convert(OptsView),
}

pub open spec fn command_view(c: Command) -> CommandView {
    match c {
        Command::Help => CommandView::Help,
        Command::Convert(o) => CommandView::Convert(o@),
    }
}

/// The command that the arguments (the program name left out) ask for.
pub open spec fn command_from_args(args: Seq<Seq<char>>) -> Result<CommandView, ArgError> {
    match scan(args, 0, default_opts()) {
        Scan::Help => Ok(CommandView::Help),
        Scan::Failed(e) => Err(e),
        Scan::Finished(o) => if o.input.len() == 0 {
            Err(ArgError::NoInput)
        } else if o.cols < MIN_COLS {
            Err(ArgError::TooFewCols)
        } else if o.gamma matches Some(g) && text::is_nan_literal(g) {
            Err(ArgError::GammaNotANumber)
        } else {
            Ok(CommandView::Convert(o))
        },
    }
}

/// The option that the argument `a` names.
pub fn classify(a: &Vec<char>) -> (r: Option<Flag>)
    ensures
        r == flag_of(a@),
{
    if chars_equal(a, &vec!['-', 'h']) || chars_equal(a, &vec!['-', '-', 'h', 'e', 'l', 'p']) {
        Some(Flag::Help)
    } else if chars_equal(a, &vec!['-', 'o']) || chars_equal(
        a,
        &vec!['-', '-', 'o', 'u', 't', 'p', 'u', 't'],
    ) {
        Some(Flag::Output)
    } else if chars_equal(a, &vec!['-', '-', 'c', 'r', 'o', 'p']) {
        Some(Flag::Crop)
    } else if chars_equal(a, &vec!['-', '-', 'c', 'o', 'l', 's']) || chars_equal(
        a,
        &vec!['-', '-', 'w', 'i', 'd', 't', 'h'],
    ) {
        Some(Flag::Cols)
    } else if chars_equal(a, &vec!['-', '-', 'g', 'a', 'm', 'm', 'a']) {
        Some(Flag::Gamma)
    } else if chars_equal(a, &vec!['-', '-', 's', 'i', 'z', 'e']) {
        Some(Flag::Size)
    } else if chars_equal(a, &vec!['-', '-', 's', 'o', 'f', 't', '-', 'b', 'g']) {
        Some(Flag::SoftBg)
    } else if chars_equal(a, &vec!['-', '-', 'l', 'i', 'g', 'h', 't']) {
        Some(Flag::Light)
    } else {
        None
    }
}

/// Reads the value `value` of the option `f` into `opts`.
fn apply_flag_value(f: Flag, value: &String, opts: &mut Opts) -> (r: Result<(), ArgError>)
    requires
        takes_value(f),
    ensures
        match apply_value(f, value@, old(opts)@) {
            Ok(next) => r is Ok && final(opts)@ == next,
            Err(e) => r == Err::<(), ArgError>(e),
        },
{
    let chars = chars_of(value.as_str());
    match f {
        Flag::Output => {
            opts.output = value.clone();
            Ok(())
        },
        Flag::Crop => match parse_crop(value.as_str()) {
            Ok(c) => {
                opts.crop = Some(c);
                Ok(())
            },
            Err(e) => Err(ArgError::Crop(e)),
        },
        Flag::Cols => match parse_u32(&chars) {
            Ok(n) => {
                opts.cols = n;
                Ok(())
            },
            Err(e) => Err(ArgError::Cols(e)),
        },
        Flag::Gamma => match check_float_literal(&chars) {
            Ok(()) => {
                opts.gamma = Some(value.clone());
                Ok(())
            },
            Err(e) => Err(ArgError::Gamma(e)),
        },
        _ => match check_float_literal(&chars) {
            Ok(()) => {
                opts.font_px = Some(value.clone());
                Ok(())
            },
            Err(e) => Err(ArgError::Size(e)),
        },
    }
}

/// Reads the command line (`args` holds the arguments after the program name).
pub fn parse_args(args: &Vec<String>) -> (r: Result<Command, ArgError>)
    ensures
        match r {
            Ok(c) => command_from_args(args.deep_view()) == Ok::<CommandView, ArgError>(
                command_view(c),
            ),
            Err(e) => command_from_args(args.deep_view()) == Err::<CommandView, ArgError>(e),
        },
{
    let ghost all = args.deep_view();
    let mut opts = Opts::default();
    let n = args.len();
    let mut i: usize = 0;
    while i < n
        invariant
            n == args.len(),
            i <= n,
            all == args.deep_view(),
            scan(all, 0, default_opts()) == scan(all, i as nat, opts@),
        decreases n - i,
    {
        let a = chars_of(args[i].as_str());
        assert(all[i as int] == a@);
        match classify(&a) {
            Some(Flag::Help) => {
                return Ok(Command::Help);
            },
            Some(Flag::SoftBg) => {
                opts.soft_bg = true;
                i += 1;
            },
            Some(Flag::Light) => {
                opts.light = true;
                i += 1;
            },
            Some(f) => {
                if i + 1 >= n {
                    let name = match f {
                        Flag::Output => OptionName::Output,
                        Flag::Crop => OptionName::Crop,
                        Flag::Cols => OptionName::Cols,
                        Flag::Gamma => OptionName::Gamma,
                        _ => OptionName::Size,
                    };
                    return Err(ArgError::MissingValue(name));
                }
                assert(all[i + 1] == args@[i + 1]@);
                match apply_flag_value(f, &args[i + 1], &mut opts) {
                    Ok(()) => {
                        i += 2;
                    },
                    Err(e) => {
                        return Err(e);
                    },
                }
            },
            None => {
                if a.len() > 0 && a[0] == '-' {
                    return Err(ArgError::UnknownOption(i));
                }
                opts.input = args[i].clone();
                i += 1;
            },
        }
    }
    if opts.input.as_str().is_empty() {
        return Err(ArgError::NoInput);
    }
    if opts.cols < MIN_COLS {
        return Err(ArgError::TooFewCols);
    }
    let nan = match &opts.gamma {
        Some(g) => is_nan_text(&chars_of(g.as_str())),
        None => false,
    };
    if nan {
        return Err(ArgError::GammaNotANumber);
    }
    Ok(Command::Convert(opts))
}

} // verus!

verus! {

/// The options hold only values the command line can accept: a crop rectangle that is
/// not empty or inverted, and float literals for gamma and size.
pub open spec fn options_well_formed(o: OptsView) -> bool {
    &&& o.crop matches Some((x1, y1, x2, y2)) ==> x1 < x2 && y1 < y2
    &&& o.gamma matches Some(g) ==> text::is_float_literal(g)
    &&& o.font_px matches Some(s) ==> text::is_float_literal(s)
}

proof fn lemma_scan_keeps_well_formed(args: Seq<Seq<char>>, i: nat, o: OptsView)
    requires
        options_well_formed(o),
    ensures
        scan(args, i, o) matches Scan::Finished(done) ==> options_well_formed(done),
    decreases args.len() - i,
{
    if i < args.len() {
        let a = args[i as int];
        match flag_of(a) {
            Some(Flag::Help) => {},
            Some(Flag::SoftBg) => {
                lemma_scan_keeps_well_formed(args, i + 1, OptsView { soft_bg: true, ..o });
            },
            Some(Flag::Light) => {
                lemma_scan_keeps_well_formed(args, i + 1, OptsView { light: true, ..o });
            },
            Some(f) => {
                if i + 1 < args.len() {
                    if let Ok(next) = apply_value(f, args[i + 1 as int], o) {
                        lemma_scan_keeps_well_formed(args, i + 2, next);
                    }
                }
            },
            None => {
                if !(a.len() > 0 && a[0] == '-') {
                    lemma_scan_keeps_well_formed(args, i + 1, OptsView { input: a, ..o });
                }
            },
        }
    }
}

/// Every command line that is accepted for conversion names an input, asks for at least
/// `MIN_COLS` columns, has a gamma that is not NaN, a crop rectangle with `x2 > x1` and
/// `y2 > y1`, and float literals for gamma and size.
pub proof fn lemma_accepted_options(args: Seq<Seq<char>>)
    ensures
        command_from_args(args) matches Ok(CommandView::Convert(o)) ==> {
            &&& o.input.len() > 0
            &&& o.cols >= MIN_COLS
            &&& !(o.gamma matches Some(g) && text::is_nan_literal(g))
            &&& options_well_formed(o)
        },
{
    lemma_scan_keeps_well_formed(args, 0, default_opts());
}

} // verus!

verus! {

/// The value `v` is one that the option `f` accepts.
pub open spec fn value_accepted(f: Flag, v: Seq<char>) -> bool {
    match f {
        Flag::Crop => crop_from_str(v) is Ok,
        Flag::Cols => text::u32_from_str(v) is Ok,
        Flag::Gamma => text::float_literal_check(v) is Ok,
        Flag::Size => text::float_literal_check(v) is Ok,
        _ => true,
    }
}

/// From position `i` on, the arguments are only known options with accepted values
/// and inputs (no help, no unknown option, no missing value).
pub open spec fn known_arguments(args: Seq<Seq<char>>, i: nat) -> bool
    decreases args.len() - i,
{
    if i >= args.len() {
        true
    } else {
        let a = args[i as int];
        match flag_of(a) {
            Some(Flag::Help) => false,
            Some(Flag::SoftBg) => known_arguments(args, i + 1),
            Some(Flag::Light) => known_arguments(args, i + 1),
            Some(f) => i + 1 < args.len() && value_accepted(f, args[i + 1 as int])
                && known_arguments(args, i + 2),
            None => !(a.len() > 0 && a[0] == '-') && known_arguments(args, i + 1),
        }
    }
}

/// The last input named from position `i` on, or `current` when none is.
pub open spec fn last_input(args: Seq<Seq<char>>, i: nat, current: Seq<char>) -> Seq<char>
    decreases args.len() - i,
{
    if i >= args.len() {
        current
    } else {
        match flag_of(args[i as int]) {
            None => last_input(args, i + 1, args[i as int]),
            Some(f) => if takes_value(f) {
                if i + 1 < args.len() {
                    last_input(args, i + 2, current)
                } else {
                    current
                }
            } else {
                last_input(args, i + 1, current)
            },
        }
    }
}

/// The last `--cols` value from position `i` on, or `current` when none is given.
pub open spec fn last_cols(args: Seq<Seq<char>>, i: nat, current: u32) -> u32
    decreases args.len() - i,
{
    if i >= args.len() {
        current
    } else {
        match flag_of(args[i as int]) {
            None => last_cols(args, i + 1, current),
            Some(f) => if takes_value(f) {
                if i + 1 >= args.len() {
                    current
                } else if f is Cols {
                    match text::u32_from_str(args[i + 1 as int]) {
                        Ok(n) => last_cols(args, i + 2, n),
                        Err(_) => last_cols(args, i + 2, current),
                    }
                } else {
                    last_cols(args, i + 2, current)
                }
            } else {
                last_cols(args, i + 1, current)
            },
        }
    }
}

/// The last `--gamma` literal from position `i` on, or `current` when none is given.
pub open spec fn last_gamma(args: Seq<Seq<char>>, i: nat, current: Option<Seq<char>>) -> Option<
    Seq<char>,
>
    decreases args.len() - i,
{
    if i >= args.len() {
        current
    } else {
        match flag_of(args[i as int]) {
            None => last_gamma(args, i + 1, current),
            Some(f) => if takes_value(f) {
                if i + 1 >= args.len() {
                    current
                } else if f is Gamma {
                    last_gamma(args, i + 2, Some(args[i + 1 as int]))
                } else {
                    last_gamma(args, i + 2, current)
                }
            } else {
                last_gamma(args, i + 1, current)
            },
        }
    }
}

proof fn lemma_scan_known(args: Seq<Seq<char>>, i: nat, o: OptsView)
    requires
        known_arguments(args, i),
    ensures
        scan(args, i, o) matches Scan::Finished(done) && done.input == last_input(
            args,
            i,
            o.input,
        ) && done.cols == last_cols(args, i, o.cols) && done.gamma == last_gamma(
            args,
            i,
            o.gamma,
        ),
    decreases args.len() - i,
{
    if i < args.len() {
        let a = args[i as int];
        match flag_of(a) {
            Some(Flag::Help) => {},
            Some(Flag::SoftBg) => {
                lemma_scan_known(args, i + 1, OptsView { soft_bg: true, ..o });
            },
            Some(Flag::Light) => {
                lemma_scan_known(args, i + 1, OptsView { light: true, ..o });
            },
            Some(f) => {
                if let Ok(next) = apply_value(f, args[i + 1 as int], o) {
                    lemma_scan_known(args, i + 2, next);
                }
            },
            None => {
                lemma_scan_known(args, i + 1, OptsView { input: a, ..o });
            },
        }
    }
}

/// For arguments made only of known options with accepted values, the command line is
/// accepted for conversion exactly when the last input is not empty, the last `--cols`
/// (100 when absent) is at least `MIN_COLS` and the last `--gamma` is not NaN.
pub proof fn lemma_known_arguments_accepted(args: Seq<Seq<char>>)
    requires
        known_arguments(args, 0),
    ensures
        command_from_args(args) is Ok <==> {
            &&& last_input(args, 0, Seq::empty()).len() > 0
            &&& last_cols(args, 0, DEFAULT_COLS) >= MIN_COLS
            &&& !(last_gamma(args, 0, None) matches Some(g) && text::is_nan_literal(g))
        },
        command_from_args(args) is Ok ==> command_from_args(args) matches Ok(
            CommandView::Convert(_),
        ),
{
    lemma_scan_known(args, 0, default_opts());
}

} // verus!

verus! {

/// `--light`.
pub open spec fn light_word() -> Seq<char> {
    seq!['-', '-', 'l', 'i', 'g', 'h', 't']
}

/// `--soft-bg`.
pub open spec fn soft_bg_word() -> Seq<char> {
    seq!['-', '-', 's', 'o', 'f', 't', '-', 'b', 'g']
}

/// Each spelling on the command line names the option the usage text gives it.
pub proof fn lemma_flag_spellings()
    ensures
        flag_of(seq!['-', 'h']) == Some(Flag::Help),
        flag_of(seq!['-', '-', 'h', 'e', 'l', 'p']) == Some(Flag::Help),
        flag_of(seq!['-', 'o']) == Some(Flag::Output),
        flag_of(seq!['-', '-', 'o', 'u', 't', 'p', 'u', 't']) == Some(Flag::Output),
        flag_of(seq!['-', '-', 'c', 'r', 'o', 'p']) == Some(Flag::Crop),
        flag_of(seq!['-', '-', 'c', 'o', 'l', 's']) == Some(Flag::Cols),
        flag_of(seq!['-', '-', 'w', 'i', 'd', 't', 'h']) == Some(Flag::Cols),
        flag_of(seq!['-', '-', 'g', 'a', 'm', 'm', 'a']) == Some(Flag::Gamma),
        flag_of(seq!['-', '-', 's', 'i', 'z', 'e']) == Some(Flag::Size),
        flag_of(soft_bg_word()) == Some(Flag::SoftBg),
        flag_of(light_word()) == Some(Flag::Light),
        value_name(Flag::Output) == OptionName::Output,
        value_name(Flag::Crop) == OptionName::Crop,
        value_name(Flag::Cols) == OptionName::Cols,
        value_name(Flag::Gamma) == OptionName::Gamma,
        value_name(Flag::Size) == OptionName::Size,
{
    let w = seq!['-', '-', 'w', 'i', 'd', 't', 'h'];
    let g = seq!['-', '-', 'g', 'a', 'm', 'm', 'a'];
    let s = seq!['-', '-', 's', 'i', 'z', 'e'];
    let c = seq!['-', '-', 'c', 'o', 'l', 's'];
    let r = seq!['-', '-', 'c', 'r', 'o', 'p'];
    let o = seq!['-', '-', 'o', 'u', 't', 'p', 'u', 't'];
    let hl = seq!['-', '-', 'h', 'e', 'l', 'p'];
    let sb = soft_bg_word();
    let l = light_word();
    assert(c[3] != r[3]);
    assert(w[2] != c[2] && w[2] != hl[2]);
    assert(g[2] != c[2] && g[2] != w[2] && g[2] != hl[2]);
    assert(s[2] != c[2] && s[2] != hl[2] && s[3] != r[3]);
    assert(sb[2] != o[2] && sb[2] != w[2] && sb[2] != g[2]);
    assert(l[2] != c[2] && l[2] != w[2] && l[2] != g[2] && l[2] != hl[2]);
}

/// Whether `word` stands, from position `i` on, as an argument of its own (not as the
/// value of an option before it).
pub open spec fn given_as_option(args: Seq<Seq<char>>, i: nat, word: Seq<char>) -> bool
    decreases args.len() - i,
{
    if i >= args.len() {
        false
    } else if args[i as int] == word {
        true
    } else {
        match flag_of(args[i as int]) {
            Some(f) => if takes_value(f) {
                i + 1 < args.len() && given_as_option(args, i + 2, word)
            } else {
                given_as_option(args, i + 1, word)
            },
            None => given_as_option(args, i + 1, word),
        }
    }
}

proof fn lemma_scan_switches(args: Seq<Seq<char>>, i: nat, o: OptsView)
    ensures
        scan(args, i, o) matches Scan::Finished(done) ==> {
            &&& done.light == (o.light || given_as_option(args, i, light_word()))
            &&& done.soft_bg == (o.soft_bg || given_as_option(args, i, soft_bg_word()))
        },
    decreases args.len() - i,
{
    lemma_flag_spellings();
    if i < args.len() {
        let a = args[i as int];
        match flag_of(a) {
            Some(Flag::Help) => {},
            Some(Flag::SoftBg) => {
                lemma_scan_switches(args, i + 1, OptsView { soft_bg: true, ..o });
            },
            Some(Flag::Light) => {
                lemma_scan_switches(args, i + 1, OptsView { light: true, ..o });
            },
            Some(f) => {
                if i + 1 < args.len() {
                    if let Ok(next) = apply_value(f, args[i + 1 as int], o) {
                        lemma_scan_switches(args, i + 2, next);
                    }
                }
            },
            None => {
                lemma_scan_switches(args, i + 1, OptsView { input: a, ..o });
            },
        }
    }
}

/// A command line accepted for conversion asks for the light theme exactly when
/// `--light` stands among its arguments as an option, and for the soft background
/// exactly when `--soft-bg` does.
pub proof fn lemma_accepted_switches(args: Seq<Seq<char>>)
    ensures
        command_from_args(args) matches Ok(CommandView::Convert(o)) ==> {
            &&& o.light == given_as_option(args, 0, light_word())
            &&& o.soft_bg == given_as_option(args, 0, soft_bg_word())
        },
{
    lemma_scan_switches(args, 0, default_opts());
}

} // verus!

verus! {

/// The four fields `f0,f1,f2,f3` joined by commas.
pub open spec fn comma_join4(f0: Seq<char>, f1: Seq<char>, f2: Seq<char>, f3: Seq<char>) -> Seq<
    char,
> {
    f0 + seq![','] + f1 + seq![','] + f2 + seq![','] + f3
}

/// `--crop` text made of four comma-free fields that read (trimmed) as the numbers
/// `c0, c1, c2, c3` gives the rectangle `(c0, c1, c2, c3)` exactly when `c0 < c2` and
/// `c1 < c3`, and is otherwise refused as malformed; nothing else is asked of the
/// numbers, so rectangles on the top or left edge (a zero coordinate) are read too.
pub proof fn lemma_crop_of_four_fields(
    f0: Seq<char>,
    f1: Seq<char>,
    f2: Seq<char>,
    f3: Seq<char>,
    c0: u32,
    c1: u32,
    c2: u32,
    c3: u32,
)
    requires
        forall|i: int| 0 <= i < f0.len() ==> f0[i] != ',',
        forall|i: int| 0 <= i < f1.len() ==> f1[i] != ',',
        forall|i: int| 0 <= i < f2.len() ==> f2[i] != ',',
        forall|i: int| 0 <= i < f3.len() ==> f3[i] != ',',
        text::u32_from_str(text::trim(f0)) == Ok::<u32, IntErrorKind>(c0),
        text::u32_from_str(text::trim(f1)) == Ok::<u32, IntErrorKind>(c1),
        text::u32_from_str(text::trim(f2)) == Ok::<u32, IntErrorKind>(c2),
        text::u32_from_str(text::trim(f3)) == Ok::<u32, IntErrorKind>(c3),
    ensures
        crop_from_str(comma_join4(f0, f1, f2, f3)) == if c0 < c2 && c1 < c3 {
            Ok::<(u32, u32, u32, u32), CropError>((c0, c1, c2, c3))
        } else {
            Err(CropError::Format)
        },
{
    text::lemma_split_on_no_separator(f0, ',');
    text::lemma_split_on_no_separator(f1, ',');
    text::lemma_split_on_no_separator(f2, ',');
    text::lemma_split_on_no_separator(f3, ',');
    let s01 = f0 + seq![','] + f1;
    let s012 = s01 + seq![','] + f2;
    text::lemma_split_on_join(f0, f1, ',');
    text::lemma_split_on_join(s01, f2, ',');
    text::lemma_split_on_join(s012, f3, ',');
    let fields = seq![f0, f1, f2, f3];
    assert(text::split_on(comma_join4(f0, f1, f2, f3), ',') =~= fields);
    assert(fields.drop_last() =~= seq![f0, f1, f2]);
    assert(fields.drop_last().drop_last() =~= seq![f0, f1]);
    assert(fields.drop_last().drop_last().drop_last() =~= seq![f0]);
    assert(seq![f0].drop_last() =~= Seq::<Seq<char>>::empty());
    let vals = seq![c0, c1, c2, c3];
    assert(parse_fields(Seq::<Seq<char>>::empty()) == Ok::<Seq<u32>, IntErrorKind>(Seq::empty()));
    assert(Seq::<u32>::empty().push(c0) =~= seq![c0]);
    assert(seq![f0].last() == f0);
    assert(parse_fields(seq![f0]) == Ok::<Seq<u32>, IntErrorKind>(seq![c0]));
    assert(seq![c0].push(c1) =~= seq![c0, c1]);
    assert(seq![c0, c1].push(c2) =~= seq![c0, c1, c2]);
    assert(seq![c0, c1, c2].push(c3) =~= vals);
    assert(parse_fields(seq![f0, f1]) == Ok::<Seq<u32>, IntErrorKind>(seq![c0, c1]));
    assert(parse_fields(seq![f0, f1, f2]) == Ok::<Seq<u32>, IntErrorKind>(seq![c0, c1, c2]));
    assert(parse_fields(fields) == Ok::<Seq<u32>, IntErrorKind>(vals));
}

} // verus!

verus! {

/// The value last given, from position `i` on, to an option that takes a value and that
/// `flag_of` reads as `f`.
pub open spec fn last_value(args: Seq<Seq<char>>, i: nat, f: Flag) -> Option<Seq<char>>
    decreases args.len() - i,
{
    if i >= args.len() {
        None
    } else {
        match flag_of(args[i as int]) {
            Some(g) => if takes_value(g) {
                if i + 1 >= args.len() {
                    None
                } else {
                    match last_value(args, i + 2, f) {
                        Some(v) => Some(v),
                        None => if g == f {
                            Some(args[i + 1 as int])
                        } else {
                            None
                        },
                    }
                }
            } else {
                last_value(args, i + 1, f)
            },
            None => last_value(args, i + 1, f),
        }
    }
}

/// The last argument, from position `i` on, that is an input rather than an option or
/// an option's value.
pub open spec fn last_plain(args: Seq<Seq<char>>, i: nat) -> Option<Seq<char>>
    decreases args.len() - i,
{
    if i >= args.len() {
        None
    } else {
        match flag_of(args[i as int]) {
            Some(g) => if takes_value(g) {
                if i + 1 >= args.len() {
                    None
                } else {
                    last_plain(args, i + 2)
                }
            } else {
                last_plain(args, i + 1)
            },
            None => match last_plain(args, i + 1) {
                Some(v) => Some(v),
                None => Some(args[i as int]),
            },
        }
    }
}

/// `v` if there is one, otherwise `d`.
pub open spec fn or_else(v: Option<Seq<char>>, d: Seq<char>) -> Seq<char> {
    match v {
        Some(x) => x,
        None => d,
    }
}

proof fn lemma_scan_values(args: Seq<Seq<char>>, i: nat, o: OptsView)
    ensures
        scan(args, i, o) matches Scan::Finished(done) ==> {
            &&& done.input == or_else(last_plain(args, i), o.input)
            &&& done.output == or_else(last_value(args, i, Flag::Output), o.output)
            &&& done.gamma == (if last_value(args, i, Flag::Gamma) is Some {
                last_value(args, i, Flag::Gamma)
            } else {
                o.gamma
            })
            &&& done.font_px == (if last_value(args, i, Flag::Size) is Some {
                last_value(args, i, Flag::Size)
            } else {
                o.font_px
            })
            &&& match last_value(args, i, Flag::Cols) {
                Some(v) => text::u32_from_str(v) == Ok::<u32, IntErrorKind>(done.cols),
                None => done.cols == o.cols,
            }
            &&& match last_value(args, i, Flag::Crop) {
                Some(v) => crop_from_str(v) matches Ok(c) && done.crop == Some(c),
                None => done.crop == o.crop,
            }
        },
    decreases args.len() - i,
{
    if i < args.len() {
        let a = args[i as int];
        match flag_of(a) {
            Some(Flag::Help) => {},
            Some(Flag::SoftBg) => {
                lemma_scan_values(args, i + 1, OptsView { soft_bg: true, ..o });
            },
            Some(Flag::Light) => {
                lemma_scan_values(args, i + 1, OptsView { light: true, ..o });
            },
            Some(f) => {
                if i + 1 < args.len() {
                    if let Ok(next) = apply_value(f, args[i + 1 as int], o) {
                        lemma_scan_values(args, i + 2, next);
                    }
                }
            },
            None => {
                lemma_scan_values(args, i + 1, OptsView { input: a, ..o });
            },
        }
    }
}

/// A command line accepted for conversion takes each setting from the last place that
/// gives it: the last input; the value after the last `-o`/`--output` (else
/// `ascii.png`); the text after the last `--gamma` and `--size` (else their defaults);
/// the number after the last `--cols`/`--width` (else 100); the rectangle after the last
/// `--crop` (else none).
pub proof fn lemma_accepted_values(args: Seq<Seq<char>>)
    ensures
        command_from_args(args) matches Ok(CommandView::Convert(o)) ==> {
            &&& last_plain(args, 0) == Some(o.input)
            &&& o.output == or_else(last_value(args, 0, Flag::Output), default_output())
            &&& o.gamma == last_value(args, 0, Flag::Gamma)
            &&& o.font_px == last_value(args, 0, Flag::Size)
            &&& match last_value(args, 0, Flag::Cols) {
                Some(v) => text::u32_from_str(v) == Ok::<u32, IntErrorKind>(o.cols),
                None => o.cols == DEFAULT_COLS,
            }
            &&& match last_value(args, 0, Flag::Crop) {
                Some(v) => crop_from_str(v) matches Ok(c) && o.crop == Some(c),
                None => o.crop is None,
            }
        },
{
    lemma_scan_values(args, 0, default_opts());
}

} // verus!
