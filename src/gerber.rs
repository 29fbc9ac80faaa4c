use vstd::prelude::*;
use crate::text::{
    lemma_first_of_bounds,
    Decimal, DecimalModel, all_alnum, all_digits, decimal_shape, decimal_value, first_of, int_shape, int_value,
    is_digit, nat_value, split_on, without_line_breaks, alnum_only, digits_only, find_char,
    is_text, parse_decimal, decimal_text, int_text, parse_i32, parse_u32, split_ranges, text_of, chars_of,
};

verus! {

#[derive(Clone, Copy, Debug, PartialEq, Eq, Structural)]
pub enum Operation {
    Move,
    Interpolate,
    Flash,
}

/// Digit counts of a coordinate: `integer` before the point, `decimal` after.
#[derive(Clone, Copy, Debug, PartialEq, Eq, Structural)]
pub struct CoordinateFormat {
    pub integer: u8,
    pub decimal: u8,
}

#[derive(Clone, Copy, Debug, PartialEq, Eq, Structural)]
pub enum AttributeTarget {
    File,
    Aperture,
    Object,
}

#[derive(Clone, Copy, Debug, PartialEq, Eq, Structural)]
pub enum Polarity {
    Dark,
    Clear,
}

#[derive(Clone, Copy, Debug, PartialEq, Eq, Structural)]
pub enum Mode {
    Inches,
    Millimeters,
}

#[derive(Clone, Copy, Debug, PartialEq, Eq, Structural)]
pub enum InterpolationMode {
    Linear,
    CircularClockwise,
    CircularCounterClockwise,
    CircularSingleQuadrant,
    CircularMultiQuadrant,
}

#[derive(Clone, Copy, Debug, PartialEq, Eq, Structural)]
pub enum Binop {
    Add,
    Sub,
    Mul,
    Div,
}

/// Arithmetic of aperture macros. Expressions are not evaluated: every
/// modifier and variable value is read as the integer constant zero.
#[derive(Debug)]
pub enum ArithmeticExpr {
    Const(i64),
    Var(u32),
    Binop(Binop, Box<ArithmeticExpr>, Box<ArithmeticExpr>),
}

/// The value every macro expression is read as.
pub open spec fn zero_expr() -> ArithmeticExpr {
    ArithmeticExpr::Const(0)
}

#[derive(Debug)]
pub enum ApertureMacroContent {
    DefineVar { name: u32, value: ArithmeticExpr },
    Primitive { code: u32, modifiers: Vec<ArithmeticExpr> },
    Comment(String),
}

#[derive(Debug)]
pub enum Command {
    DefineAttribute { target: AttributeTarget, name: String, values: Vec<String> },
    DeleteAttribute { name: Option<String> },
    Operation { op: Operation, x: i32, y: i32 },
    SetCoordinateFormat { x: CoordinateFormat, y: CoordinateFormat },
    SetAperture(u32),
    DefineAperture { code: u32, template: String, params: Vec<Decimal> },
    ApertureMacro { name: String, contents: Vec<ApertureMacroContent> },
    LoadPolarity(Polarity),
    SetMode(Mode),
    Interpolation(InterpolationMode),
    BeginRegion,
    EndRegion,
    Comment(String),
    EOF,
    Unknown(String),
}

/// Why Gerber text could not be read.
#[derive(Clone, Debug)]
pub enum GerberError {
    /// A number in a recognised command does not fit its type.
    BadNumber(String),
    /// An extended block opened by `%` is never closed; holds the rest of
    /// the text from that `%`.
    Unterminated(String),
}

/// A parsed Gerber file: its commands in file order.
pub struct Image {
    pub commands: Vec<Command>,
}

pub enum ContentModel {
    DefineVar { name: u32, value: ArithmeticExpr },
    Primitive { code: u32, modifiers: Seq<ArithmeticExpr> },
    Comment(Seq<char>),
}

pub enum CommandModel {
    DefineAttribute { target: AttributeTarget, name: Seq<char>, values: Seq<Seq<char>> },
    DeleteAttribute { name: Option<Seq<char>> },
    Operation { op: Operation, x: i32, y: i32 },
    SetCoordinateFormat { x: CoordinateFormat, y: CoordinateFormat },
    SetAperture(u32),
    DefineAperture { code: u32, template: Seq<char>, params: Seq<DecimalModel> },
    ApertureMacro { name: Seq<char>, contents: Seq<ContentModel> },
    LoadPolarity(Polarity),
    SetMode(Mode),
    Interpolation(InterpolationMode),
    BeginRegion,
    EndRegion,
    Comment(Seq<char>),
    EOF,
    Unknown(Seq<char>),
}

pub enum ErrorModel {
    BadNumber(Seq<char>),
    Unterminated(Seq<char>),
}

impl View for ApertureMacroContent {
    type V = ContentModel;

    open spec fn view(&self) -> ContentModel {
        match self {
            ApertureMacroContent::DefineVar { name, value } => ContentModel::DefineVar {
                name: *name,
                value: *value,
            },
            ApertureMacroContent::Primitive { code, modifiers } => ContentModel::Primitive {
                code: *code,
                modifiers: modifiers@,
            },
            ApertureMacroContent::Comment(t) => ContentModel::Comment(t@),
        }
    }
}

impl View for Command {
    type V = CommandModel;

    open spec fn view(&self) -> CommandModel {
        match self {
            Command::DefineAttribute { target, name, values } => CommandModel::DefineAttribute {
                target: *target,
                name: name@,
                values: values@.map_values(|v: String| v@),
            },
            Command::DeleteAttribute { name } => CommandModel::DeleteAttribute {
                name: match name {
                    Some(n) => Some(n@),
                    None => None,
                },
            },
            Command::Operation { op, x, y } => CommandModel::Operation { op: *op, x: *x, y: *y },
            Command::SetCoordinateFormat { x, y } => CommandModel::SetCoordinateFormat { x: *x, y: *y },
            Command::SetAperture(d) => CommandModel::SetAperture(*d),
            Command::DefineAperture { code, template, params } => CommandModel::DefineAperture {
                code: *code,
                template: template@,
                params: params@.map_values(|d: Decimal| d@),
            },
            Command::ApertureMacro { name, contents } => CommandModel::ApertureMacro {
                name: name@,
                contents: contents@.map_values(|c: ApertureMacroContent| c@),
            },
            Command::LoadPolarity(p) => CommandModel::LoadPolarity(*p),
            Command::SetMode(m) => CommandModel::SetMode(*m),
            Command::Interpolation(m) => CommandModel::Interpolation(*m),
            Command::BeginRegion => CommandModel::BeginRegion,
            Command::EndRegion => CommandModel::EndRegion,
            Command::Comment(t) => CommandModel::Comment(t@),
            Command::EOF => CommandModel::EOF,
            Command::Unknown(t) => CommandModel::Unknown(t@),
        }
    }
}

impl View for GerberError {
    type V = ErrorModel;

    open spec fn view(&self) -> ErrorModel {
        match self {
            GerberError::BadNumber(t) => ErrorModel::BadNumber(t@),
            GerberError::Unterminated(t) => ErrorModel::Unterminated(t@),
        }
    }
}

pub open spec fn result_model(r: Result<Command, GerberError>) -> Result<CommandModel, ErrorModel> {
    match r {
        Ok(c) => Ok(c@),
        Err(e) => Err(e@),
    }
}

pub open spec fn fits_i32(v: int) -> bool {
    i32::MIN <= v <= i32::MAX
}

/// Operation named by the two digits of a D-code: 01, 02 or 03.
pub open spec fn op_of(d: Seq<char>) -> Option<Operation> {
    if d == seq!['0', '1'] {
        Some(Operation::Interpolate)
    } else if d == seq!['0', '2'] {
        Some(Operation::Move)
    } else if d == seq!['0', '3'] {
        Some(Operation::Flash)
    } else {
        None
    }
}

/// `X<int>Y<int>D<01|02|03>`.
pub open spec fn op_shape(b: Seq<char>) -> bool {
    let yi = first_of(b, 'Y');
    &&& b.len() >= 1
    &&& b[0] == 'X'
    &&& yi + 1 < b.len() - 3
    &&& b[b.len() - 3] == 'D'
    &&& int_shape(b.subrange(1, yi))
    &&& int_shape(b.subrange(yi + 1, b.len() - 3))
    &&& op_of(b.skip(b.len() - 2)) is Some
}

/// Interpolation mode of `G01`, `G02`, `G03`, `G74`, `G75`.
pub open spec fn interpolation_of(b: Seq<char>) -> Option<InterpolationMode> {
    if b == seq!['G', '0', '1'] {
        Some(InterpolationMode::Linear)
    } else if b == seq!['G', '0', '2'] {
        Some(InterpolationMode::CircularClockwise)
    } else if b == seq!['G', '0', '3'] {
        Some(InterpolationMode::CircularCounterClockwise)
    } else if b == seq!['G', '7', '4'] {
        Some(InterpolationMode::CircularSingleQuadrant)
    } else if b == seq!['G', '7', '5'] {
        Some(InterpolationMode::CircularMultiQuadrant)
    } else {
        None
    }
}

/// The command a plain block (ended by `*`, line breaks removed) stands for.
pub open spec fn plain_model(b: Seq<char>) -> Result<CommandModel, ErrorModel> {
    if op_shape(b) {
        let yi = first_of(b, 'Y');
        let xs = b.subrange(1, yi);
        let ys = b.subrange(yi + 1, b.len() - 3);
        if !fits_i32(int_value(xs)) {
            Err(ErrorModel::BadNumber(xs))
        } else if !fits_i32(int_value(ys)) {
            Err(ErrorModel::BadNumber(ys))
        } else {
            Ok(
                CommandModel::Operation {
                    op: op_of(b.skip(b.len() - 2)).unwrap(),
                    x: int_value(xs) as i32,
                    y: int_value(ys) as i32,
                },
            )
        }
    } else if b.len() >= 4 && b.take(4) == seq!['G', '0', '4', ' '] {
        Ok(CommandModel::Comment(b.skip(4)))
    } else if b.len() >= 3 && b[0] == 'D' && '1' <= b[1] <= '9' && all_digits(b.skip(1)) {
        if nat_value(b.skip(1)) <= u32::MAX {
            Ok(CommandModel::SetAperture(nat_value(b.skip(1)) as u32))
        } else {
            Err(ErrorModel::BadNumber(b.skip(1)))
        }
    } else if b == seq!['M', '0', '2'] {
        Ok(CommandModel::EOF)
    } else if b == seq!['G', '3', '6'] {
        Ok(CommandModel::BeginRegion)
    } else if b == seq!['G', '3', '7'] {
        Ok(CommandModel::EndRegion)
    } else if interpolation_of(b) is Some {
        Ok(CommandModel::Interpolation(interpolation_of(b).unwrap()))
    } else {
        Ok(CommandModel::Unknown(b))
    }
}

fn operation_of(b: &Vec<char>, from: usize) -> (r: Option<Operation>)
    requires
        from + 2 == b@.len(),
    ensures
        r == op_of(b@.skip(from as int)),
{
    proof {
        assert(b@.skip(from as int) =~= b@.subrange(from as int, b@.len() as int));
    }
    let n = b.len();
    if is_text(b, from, n, &['0', '1']) {
        Some(Operation::Interpolate)
    } else if is_text(b, from, n, &['0', '2']) {
        Some(Operation::Move)
    } else if is_text(b, from, n, &['0', '3']) {
        Some(Operation::Flash)
    } else {
        None
    }
}

/// Reads the operation `X<int>Y<int>D<code>` of a plain block, if it has
/// that shape.
fn classify_operation(b: &Vec<char>) -> (r: Option<Result<Command, GerberError>>)
    ensures
        op_shape(b@) <==> r is Some,
        op_shape(b@) ==> result_model(r.unwrap()) == plain_model(b@),
{
    let n = b.len();
    if n < 1 || b[0] != 'X' {
        return None;
    }
    let yi = find_char(b, 0, n, 'Y');
    proof {
        assert(b@.subrange(0, n as int) =~= b@);
        lemma_first_of_bounds(b@, 'Y');
    }
    if !(yi < n && n - yi > 4) || b[n - 3] != 'D' {
        return None;
    }
    let op = operation_of(b, n - 2);
    if op.is_none() {
        return None;
    }
    let ghost xs = b@.subrange(1, yi as int);
    let ghost ys = b@.subrange(yi + 1, n - 3);
    if !int_text(b, 1, yi) || !int_text(b, yi + 1, n - 3) {
        return None;
    }
    match parse_i32(b, 1, yi) {
        None => Some(Err(GerberError::BadNumber(text_of(b, 1, yi)))),
        Some(x) => match parse_i32(b, yi + 1, n - 3) {
            None => Some(Err(GerberError::BadNumber(text_of(b, yi + 1, n - 3)))),
            Some(y) => Some(Ok(Command::Operation { op: op.unwrap(), x, y })),
        },
    }
}

/// Reads a plain block: the text of a command ended by `*`, line breaks
/// removed.
pub fn classify_plain(b: &Vec<char>) -> (r: Result<Command, GerberError>)
    ensures
        result_model(r) == plain_model(b@),
{
    let n = b.len();
    if let Some(r) = classify_operation(b) {
        return r;
    }
    if n >= 4 && is_text(b, 0, 4, &['G', '0', '4', ' ']) {
        proof {
            assert(b@.take(4) =~= b@.subrange(0, 4));
            assert(b@.skip(4) =~= b@.subrange(4, n as int));
        }
        return Ok(Command::Comment(text_of(b, 4, n)));
    }
    if n >= 3 && b[0] == 'D' && '1' <= b[1] && b[1] <= '9' && digits_only(b, 1, n) {
        proof {
            assert(b@.skip(1) =~= b@.subrange(1, n as int));
        }
        return match parse_u32(b, 1, n) {
            Some(d) => Ok(Command::SetAperture(d)),
            None => Err(GerberError::BadNumber(text_of(b, 1, n))),
        };
    }
    proof {
        assert(b@.subrange(0, n as int) =~= b@);
    }
    if is_text(b, 0, n, &['M', '0', '2']) {
        Ok(Command::EOF)
    } else if is_text(b, 0, n, &['G', '3', '6']) {
        Ok(Command::BeginRegion)
    } else if is_text(b, 0, n, &['G', '3', '7']) {
        Ok(Command::EndRegion)
    } else if is_text(b, 0, n, &['G', '0', '1']) {
        Ok(Command::Interpolation(InterpolationMode::Linear))
    } else if is_text(b, 0, n, &['G', '0', '2']) {
        Ok(Command::Interpolation(InterpolationMode::CircularClockwise))
    } else if is_text(b, 0, n, &['G', '0', '3']) {
        Ok(Command::Interpolation(InterpolationMode::CircularCounterClockwise))
    } else if is_text(b, 0, n, &['G', '7', '4']) {
        Ok(Command::Interpolation(InterpolationMode::CircularSingleQuadrant))
    } else if is_text(b, 0, n, &['G', '7', '5']) {
        Ok(Command::Interpolation(InterpolationMode::CircularMultiQuadrant))
    } else {
        Ok(Command::Unknown(text_of(b, 0, n)))
    }
}

/// Target of an attribute command `TF`, `TA` or `TO`.
pub open spec fn target_of(c: char) -> Option<AttributeTarget> {
    if c == 'F' {
        Some(AttributeTarget::File)
    } else if c == 'A' {
        Some(AttributeTarget::Aperture)
    } else if c == 'O' {
        Some(AttributeTarget::Object)
    } else {
        None
    }
}

/// No piece is empty.
pub open spec fn no_empty_piece(pieces: Seq<Seq<char>>) -> bool {
    forall|i: int| 0 <= i < pieces.len() ==> #[trigger] pieces[i].len() > 0
}

/// `T[FAO]<name>(,<value>)*` with non-empty name and values.
pub open spec fn attribute_shape(p: Seq<char>) -> bool {
    p.len() >= 2 && p[0] == 'T' && target_of(p[1]) is Some && no_empty_piece(split_on(p.skip(2), ','))
}

/// `FSLAX<d><d>Y<d><d>`.
pub open spec fn format_shape(p: Seq<char>) -> bool {
    p.len() == 10 && p.take(5) == seq!['F', 'S', 'L', 'A', 'X'] && is_digit(p[5]) && is_digit(p[6])
        && p[7] == 'Y' && is_digit(p[8]) && is_digit(p[9])
}

/// Format of the two digits `a`, `b`: `a` integer and `b` decimal digits.
pub open spec fn format_of(a: char, b: char) -> CoordinateFormat {
    CoordinateFormat { integer: (a as nat - '0' as nat) as u8, decimal: (b as nat - '0' as nat) as u8 }
}

/// Model of one `*`-separated statement of an aperture macro body, `None`
/// for a statement of no known shape (it is left out).
pub open spec fn statement_model(v: Seq<char>) -> Result<Option<ContentModel>, ErrorModel> {
    let e = first_of(v, '=');
    let c = first_of(v, ',');
    if v.len() >= 2 && v[0] == '0' && v[1] == ' ' {
        Ok(Some(ContentModel::Comment(v.skip(2))))
    } else if v.len() >= 1 && v[0] == '$' && e < v.len() && e >= 2 && all_digits(v.subrange(1, e)) {
        if nat_value(v.subrange(1, e)) <= u32::MAX {
            Ok(Some(ContentModel::DefineVar { name: nat_value(v.subrange(1, e)) as u32, value: zero_expr() }))
        } else {
            Err(ErrorModel::BadNumber(v.subrange(1, e)))
        }
    } else if c < v.len() && c >= 1 && all_digits(v.take(c)) {
        if nat_value(v.take(c)) <= u32::MAX {
            Ok(
                Some(
                    ContentModel::Primitive {
                        code: nat_value(v.take(c)) as u32,
                        modifiers: Seq::new(split_on(v.skip(c + 1), ',').len(), |i: int| zero_expr()),
                    },
                ),
            )
        } else {
            Err(ErrorModel::BadNumber(v.take(c)))
        }
    } else {
        Ok(None)
    }
}

/// Statements of a macro body read left to right; the first error wins.
pub open spec fn statements_model(pieces: Seq<Seq<char>>) -> Result<Seq<ContentModel>, ErrorModel>
    decreases pieces.len(),
{
    if pieces.len() == 0 {
        Ok(Seq::empty())
    } else {
        match statements_model(pieces.drop_last()) {
            Err(e) => Err(e),
            Ok(cs) => match statement_model(pieces.last()) {
                Err(e) => Err(e),
                Ok(None) => Ok(cs),
                Ok(Some(c)) => Ok(cs.push(c)),
            },
        }
    }
}

/// `AM<name>*<body>` with an alphanumeric name.
pub open spec fn macro_shape(p: Seq<char>) -> bool {
    let k = first_of(p, '*');
    p.len() >= 2 && p[0] == 'A' && p[1] == 'M' && 2 < k < p.len() && all_alnum(p.subrange(2, k))
}

/// Number of leading decimal digits of `s`.
pub open spec fn lead_digits(s: Seq<char>) -> int
    decreases s.len(),
{
    if s.len() == 0 {
        0
    } else if is_digit(s[0]) {
        1 + lead_digits(s.skip(1))
    } else {
        0
    }
}

/// Values of decimal numbers read left to right; the first piece that is
/// not a decimal number is the error.
pub open spec fn decimals_model(pieces: Seq<Seq<char>>) -> Result<Seq<DecimalModel>, ErrorModel>
    decreases pieces.len(),
{
    if pieces.len() == 0 {
        Ok(Seq::empty())
    } else {
        match decimals_model(pieces.drop_last()) {
            Err(e) => Err(e),
            Ok(ds) => if decimal_shape(pieces.last()) {
                Ok(ds.push(decimal_value(pieces.last())))
            } else {
                Err(ErrorModel::BadNumber(pieces.last()))
            },
        }
    }
}

/// `ADD<code><template>,<parameters>`: a code of two or more digits not
/// starting with 0 (the longest run of digits), then an alphanumeric
/// template; the parameters, separated by `X`, are read as decimal numbers.
pub open spec fn aperture_shape(p: Seq<char>) -> bool {
    let c = first_of(p, ',');
    let d = 3 + lead_digits(p.subrange(3, c));
    &&& p.len() >= 3
    &&& p.take(3) == seq!['A', 'D', 'D']
    &&& c < p.len()
    &&& d - 3 >= 2
    &&& p[3] != '0'
    &&& d < c
    &&& all_alnum(p.subrange(d, c))
}

/// The command an extended block (between `%` signs, line breaks and one
/// trailing `*` removed) stands for.
pub open spec fn extended_model(p: Seq<char>) -> Result<CommandModel, ErrorModel> {
    if attribute_shape(p) {
        let pieces = split_on(p.skip(2), ',');
        Ok(CommandModel::DefineAttribute { target: target_of(p[1]).unwrap(), name: pieces[0], values: pieces.skip(1) })
    } else if format_shape(p) {
        Ok(CommandModel::SetCoordinateFormat { x: format_of(p[5], p[6]), y: format_of(p[8], p[9]) })
    } else if p == seq!['M', 'O', 'M', 'M'] {
        Ok(CommandModel::SetMode(Mode::Millimeters))
    } else if p == seq!['M', 'O', 'I', 'N'] {
        Ok(CommandModel::SetMode(Mode::Inches))
    } else if p.len() >= 2 && p[0] == 'T' && p[1] == 'D' {
        Ok(CommandModel::DeleteAttribute { name: if p.len() > 2 { Some(p.skip(2)) } else { None } })
    } else if p == seq!['L', 'P', 'D'] {
        Ok(CommandModel::LoadPolarity(Polarity::Dark))
    } else if p == seq!['L', 'P', 'C'] {
        Ok(CommandModel::LoadPolarity(Polarity::Clear))
    } else if macro_shape(p) {
        let k = first_of(p, '*');
        match statements_model(split_on(p.skip(k + 1), '*')) {
            Err(e) => Err(e),
            Ok(cs) => Ok(CommandModel::ApertureMacro { name: p.subrange(2, k), contents: cs }),
        }
    } else if aperture_shape(p) {
        let c = first_of(p, ',');
        let d = 3 + lead_digits(p.subrange(3, c));
        if nat_value(p.subrange(3, d)) > u32::MAX {
            Err(ErrorModel::BadNumber(p.subrange(3, d)))
        } else {
            match decimals_model(split_on(p.skip(c + 1), 'X')) {
                Err(e) => Err(e),
                Ok(ds) => Ok(
                    CommandModel::DefineAperture {
                        code: nat_value(p.subrange(3, d)) as u32,
                        template: p.subrange(d, c),
                        params: ds,
                    },
                ),
            }
        }
    } else {
        Ok(CommandModel::Unknown(p))
    }
}

fn attribute_target(c: char) -> (r: Option<AttributeTarget>)
    ensures
        r == target_of(c),
{
    if c == 'F' {
        Some(AttributeTarget::File)
    } else if c == 'A' {
        Some(AttributeTarget::Aperture)
    } else if c == 'O' {
        Some(AttributeTarget::Object)
    } else {
        None
    }
}

/// Reads an attribute definition, if the payload has that shape.
fn classify_attribute(p: &Vec<char>) -> (r: Option<Command>)
    ensures
        attribute_shape(p@) <==> r is Some,
        attribute_shape(p@) ==> Ok::<CommandModel, ErrorModel>(r.unwrap()@) == extended_model(p@),
{
    let n = p.len();
    if n < 2 || p[0] != 'T' {
        return None;
    }
    let target = match attribute_target(p[1]) {
        Some(t) => t,
        None => return None,
    };
    let ranges = split_ranges(p, 2, n, ',');
    let ghost pieces = split_on(p@.subrange(2, n as int), ',');
    proof {
        assert(p@.skip(2) =~= p@.subrange(2, n as int));
    }
    let mut i: usize = 0;
    while i < ranges.len()
        invariant
            ranges@.len() == pieces.len(),
            i <= ranges@.len(),
            forall|j: int| 0 <= j < i ==> #[trigger] pieces[j].len() > 0,
            pieces == split_on(p@.skip(2), ','),
            forall|j: int|
                0 <= j < ranges@.len() ==> 2 <= (#[trigger] ranges@[j]).0 <= ranges@[j].1 <= n && p@.subrange(
                    ranges@[j].0 as int,
                    ranges@[j].1 as int,
                ) == pieces[j],
            n == p@.len(),
        decreases ranges@.len() - i,
    {
        let (a, b) = ranges[i];
        if a == b {
            proof {
                assert(pieces[i as int].len() == 0);
            }
            return None;
        }
        i = i + 1;
    }
    let (a0, b0) = ranges[0];
    let name = text_of(p, a0, b0);
    let mut values: Vec<String> = Vec::new();
    let mut k: usize = 1;
    while k < ranges.len()
        invariant
            ranges@.len() == pieces.len(),
            1 <= k <= ranges@.len(),
            forall|j: int|
                0 <= j < ranges@.len() ==> 2 <= (#[trigger] ranges@[j]).0 <= ranges@[j].1 <= n && p@.subrange(
                    ranges@[j].0 as int,
                    ranges@[j].1 as int,
                ) == pieces[j],
            n == p@.len(),
            values@.map_values(|v: String| v@) == pieces.subrange(1, k as int),
            pieces == split_on(p@.skip(2), ','),
            no_empty_piece(pieces),
        decreases ranges@.len() - k,
    {
        let (a, b) = ranges[k];
        let v = text_of(p, a, b);
        let ghost before = values@.map_values(|v: String| v@);
        values.push(v);
        proof {
            assert(values@.map_values(|v: String| v@) =~= before.push(pieces[k as int]));
            assert(pieces.subrange(1, k + 1) =~= pieces.subrange(1, k as int).push(pieces[k as int]));
        }
        k = k + 1;
    }
    proof {
        assert(pieces.subrange(1, k as int) =~= pieces.skip(1));
    }
    Some(Command::DefineAttribute { target, name, values })
}

proof fn lemma_lead_digits(s: Seq<char>, i: int)
    requires
        0 <= i <= s.len(),
        forall|j: int| 0 <= j < i ==> is_digit(s[j]),
        i < s.len() ==> !is_digit(s[i]),
    ensures
        lead_digits(s) == i,
    decreases s.len(),
{
    if s.len() > 0 && i > 0 {
        lemma_lead_digits(s.skip(1), i - 1);
    }
}

/// End of the run of digits of `s` that starts at `from`, at most `to`.
fn digits_end(s: &Vec<char>, from: usize, to: usize) -> (r: usize)
    requires
        from <= to <= s@.len(),
    ensures
        from <= r <= to,
        r - from == lead_digits(s@.subrange(from as int, to as int)),
{
    let mut i = from;
    while i < to && '0' <= s[i] && s[i] <= '9'
        invariant
            from <= i <= to <= s@.len(),
            forall|j: int| from <= j < i ==> is_digit(s@[j]),
        decreases to - i,
    {
        i = i + 1;
    }
    proof {
        lemma_lead_digits(s@.subrange(from as int, to as int), i - from);
    }
    i
}

/// Reads the decimal numbers at `ranges` of `p`, left to right.
fn read_decimals(p: &Vec<char>, ranges: &Vec<(usize, usize)>, Ghost(pieces): Ghost<Seq<Seq<char>>>) -> (r: Result<Vec<Decimal>, GerberError>)
    requires
        ranges@.len() == pieces.len(),
        forall|j: int|
            0 <= j < ranges@.len() ==> (#[trigger] ranges@[j]).0 <= ranges@[j].1 <= p@.len() && p@.subrange(
                ranges@[j].0 as int,
                ranges@[j].1 as int,
            ) == pieces[j],
    ensures
        match r {
            Ok(ds) => decimals_model(pieces) == Ok::<Seq<DecimalModel>, ErrorModel>(ds@.map_values(|d: Decimal| d@)),
            Err(e) => decimals_model(pieces) == Err::<Seq<DecimalModel>, ErrorModel>(e@),
        },
{
    let mut ds: Vec<Decimal> = Vec::new();
    let mut k: usize = 0;
    proof {
        assert(pieces.take(0) =~= Seq::<Seq<char>>::empty());
        assert(ds@.map_values(|d: Decimal| d@) =~= Seq::<DecimalModel>::empty());
    }
    while k < ranges.len()
        invariant
            ranges@.len() == pieces.len(),
            k <= ranges@.len(),
            forall|j: int|
                0 <= j < ranges@.len() ==> (#[trigger] ranges@[j]).0 <= ranges@[j].1 <= p@.len() && p@.subrange(
                    ranges@[j].0 as int,
                    ranges@[j].1 as int,
                ) == pieces[j],
            decimals_model(pieces.take(k as int)) == Ok::<Seq<DecimalModel>, ErrorModel>(ds@.map_values(|d: Decimal| d@)),
        decreases ranges@.len() - k,
    {
        let (a, b) = ranges[k];
        assert(pieces.take(k + 1).drop_last() =~= pieces.take(k as int));
        assert(pieces.take(k + 1).last() == pieces[k as int]);
        if !decimal_text(p, a, b) {
            proof {
                lemma_model_prefix_error(pieces, k + 1);
            }
            return Err(GerberError::BadNumber(text_of(p, a, b)));
        }
        let d = parse_decimal(p, a, b);
        let ghost before = ds@.map_values(|d: Decimal| d@);
        ds.push(d);
        proof {
            assert(ds@.map_values(|d: Decimal| d@) =~= before.push(d@));
        }
        k = k + 1;
    }
    assert(pieces.take(k as int) =~= pieces);
    Ok(ds)
}

/// An error in the values of a prefix is the error of the whole.
proof fn lemma_model_prefix_error(pieces: Seq<Seq<char>>, k: int)
    requires
        0 <= k <= pieces.len(),
        decimals_model(pieces.take(k)) is Err,
    ensures
        decimals_model(pieces) == decimals_model(pieces.take(k)),
    decreases pieces.len() - k,
{
    if k < pieces.len() {
        assert(pieces.take(k + 1).drop_last() =~= pieces.take(k));
        lemma_model_prefix_error(pieces, k + 1);
    } else {
        assert(pieces.take(k) =~= pieces);
    }
}

/// Reads an aperture definition, if the payload has that shape.
#[verifier::rlimit(50)]
fn classify_aperture(p: &Vec<char>) -> (r: Option<Result<Command, GerberError>>)
    ensures
        aperture_shape(p@) <==> r is Some,
        aperture_shape(p@) ==> result_model(r.unwrap()) == extended_model(p@),
{
    let n = p.len();
    if n < 3 || !is_text(p, 0, 3, &['A', 'D', 'D']) {
        proof {
            if n >= 3 {
                assert(p@.take(3) =~= p@.subrange(0, 3));
            }
        }
        return None;
    }
    proof {
        assert(p@.take(3) =~= p@.subrange(0, 3));
    }
    let c = find_char(p, 0, n, ',');
    proof {
        assert(p@.subrange(0, n as int) =~= p@);
        lemma_first_of_bounds(p@, ',');
    }
    if c >= n || c < 3 {
        proof {
            if c < 3 {
                assert(p@[c as int] == ',');
            }
        }
        return None;
    }
    let d = digits_end(p, 3, c);
    if d - 3 < 2 || p[3] == '0' || d >= c || !alnum_only(p, d, c) {
        return None;
    }
    let ranges = split_ranges(p, c + 1, n, 'X');
    let ghost pieces = split_on(p@.subrange(c + 1, n as int), 'X');
    proof {
        assert(p@.skip(c + 1) =~= p@.subrange(c + 1, n as int));
    }
    proof {
        lemma_lead_digits_all(p@.subrange(3, c as int));
        assert(p@.subrange(3, d as int) =~= p@.subrange(3, c as int).take(d - 3));
        assert(all_digits(p@.subrange(3, d as int)));
    }
    match parse_u32(p, 3, d) {
        None => Some(Err(GerberError::BadNumber(text_of(p, 3, d)))),
        Some(code) => match read_decimals(p, &ranges, Ghost(pieces)) {
            Err(e) => Some(Err(e)),
            Ok(params) => Some(Ok(Command::DefineAperture { code, template: text_of(p, d, c), params })),
        },
    }
}

proof fn lemma_lead_digits_all(s: Seq<char>)
    ensures
        0 <= lead_digits(s) <= s.len(),
        forall|j: int| 0 <= j < lead_digits(s) ==> is_digit(s[j]),
    decreases s.len(),
{
    if s.len() > 0 && is_digit(s[0]) {
        lemma_lead_digits_all(s.skip(1));
        assert forall|j: int| 0 <= j < lead_digits(s) implies is_digit(s[j]) by {
            if j > 0 {
                assert(s.skip(1)[j - 1] == s[j]);
            }
        }
    }
}

pub open spec fn statement_result(r: Result<Option<ApertureMacroContent>, GerberError>) -> Result<Option<ContentModel>, ErrorModel> {
    match r {
        Ok(Some(c)) => Ok(Some(c@)),
        Ok(None) => Ok(None),
        Err(e) => Err(e@),
    }
}

fn zero_const() -> (r: ArithmeticExpr)
    ensures
        r == zero_expr(),
{
    ArithmeticExpr::Const(0)
}

/// Reads the macro statement `p[a..b]`.
#[verifier::rlimit(40)]
fn read_statement(p: &Vec<char>, a: usize, b: usize) -> (r: Result<Option<ApertureMacroContent>, GerberError>)
    requires
        a <= b <= p@.len(),
    ensures
        statement_result(r) == statement_model(p@.subrange(a as int, b as int)),
{
    let ghost v = p@.subrange(a as int, b as int);
    let e = find_char(p, a, b, '=');
    let c = find_char(p, a, b, ',');
    if b - a >= 2 && p[a] == '0' && p[a + 1] == ' ' {
        proof {
            assert(v.skip(2) =~= p@.subrange(a + 2, b as int));
        }
        return Ok(Some(ApertureMacroContent::Comment(text_of(p, a + 2, b))));
    }
    if b - a >= 1 && p[a] == '$' && e < b && e - a >= 2 && digits_only(p, a + 1, e) {
        proof {
            assert(v.subrange(1, e - a) =~= p@.subrange(a + 1, e as int));
        }
        return match parse_u32(p, a + 1, e) {
            Some(name) => Ok(Some(ApertureMacroContent::DefineVar { name, value: zero_const() })),
            None => Err(GerberError::BadNumber(text_of(p, a + 1, e))),
        };
    }
    proof {
        if b - a >= 1 && p[a as int] == '$' && e < b && e - a >= 2 {
            assert(v.subrange(1, e - a) =~= p@.subrange(a + 1, e as int));
        }
        if c < b {
            assert(v.take(c - a) =~= p@.subrange(a as int, c as int));
        }
    }
    if c < b && c - a >= 1 && digits_only(p, a, c) {
        proof {
            assert(v.skip(c - a + 1) =~= p@.subrange(c + 1, b as int));
        }
        return match parse_u32(p, a, c) {
            Some(code) => {
                let m = split_ranges(p, c + 1, b, ',');
                let mut modifiers: Vec<ArithmeticExpr> = Vec::new();
                let mut i: usize = 0;
                while i < m.len()
                    invariant
                        i <= m@.len(),
                        modifiers@ == Seq::new(i as nat, |j: int| zero_expr()),
                    decreases m@.len() - i,
                {
                    modifiers.push(zero_const());
                    proof {
                        assert(modifiers@ =~= Seq::new((i + 1) as nat, |j: int| zero_expr()));
                    }
                    i = i + 1;
                }
                Ok(Some(ApertureMacroContent::Primitive { code, modifiers }))
            },
            None => Err(GerberError::BadNumber(text_of(p, a, c))),
        };
    }
    Ok(None)
}

/// An error in the statements of a prefix is the error of the whole.
proof fn lemma_statements_prefix_error(pieces: Seq<Seq<char>>, k: int)
    requires
        0 <= k <= pieces.len(),
        statements_model(pieces.take(k)) is Err,
    ensures
        statements_model(pieces) == statements_model(pieces.take(k)),
    decreases pieces.len() - k,
{
    if k < pieces.len() {
        assert(pieces.take(k + 1).drop_last() =~= pieces.take(k));
        lemma_statements_prefix_error(pieces, k + 1);
    } else {
        assert(pieces.take(k) =~= pieces);
    }
}

/// Reads the macro statements at `ranges` of `p`, left to right.
fn read_statements(p: &Vec<char>, ranges: &Vec<(usize, usize)>, Ghost(pieces): Ghost<Seq<Seq<char>>>) -> (r: Result<Vec<ApertureMacroContent>, GerberError>)
    requires
        ranges@.len() == pieces.len(),
        forall|j: int|
            0 <= j < ranges@.len() ==> (#[trigger] ranges@[j]).0 <= ranges@[j].1 <= p@.len() && p@.subrange(
                ranges@[j].0 as int,
                ranges@[j].1 as int,
            ) == pieces[j],
    ensures
        match r {
            Ok(cs) => statements_model(pieces) == Ok::<Seq<ContentModel>, ErrorModel>(cs@.map_values(|c: ApertureMacroContent| c@)),
            Err(e) => statements_model(pieces) == Err::<Seq<ContentModel>, ErrorModel>(e@),
        },
{
    let mut cs: Vec<ApertureMacroContent> = Vec::new();
    let mut k: usize = 0;
    proof {
        assert(pieces.take(0) =~= Seq::<Seq<char>>::empty());
        assert(cs@.map_values(|c: ApertureMacroContent| c@) =~= Seq::<ContentModel>::empty());
    }
    while k < ranges.len()
        invariant
            ranges@.len() == pieces.len(),
            k <= ranges@.len(),
            forall|j: int|
                0 <= j < ranges@.len() ==> (#[trigger] ranges@[j]).0 <= ranges@[j].1 <= p@.len() && p@.subrange(
                    ranges@[j].0 as int,
                    ranges@[j].1 as int,
                ) == pieces[j],
            statements_model(pieces.take(k as int)) == Ok::<Seq<ContentModel>, ErrorModel>(cs@.map_values(|c: ApertureMacroContent| c@)),
        decreases ranges@.len() - k,
    {
        let (a, b) = ranges[k];
        assert(pieces.take(k + 1).drop_last() =~= pieces.take(k as int));
        assert(pieces.take(k + 1).last() == pieces[k as int]);
        match read_statement(p, a, b) {
            Err(e) => {
                proof {
                    lemma_statements_prefix_error(pieces, k + 1);
                }
                return Err(e);
            },
            Ok(None) => {},
            Ok(Some(c)) => {
                let ghost before = cs@.map_values(|c: ApertureMacroContent| c@);
                cs.push(c);
                proof {
                    assert(cs@.map_values(|c: ApertureMacroContent| c@) =~= before.push(c@));
                }
            },
        }
        k = k + 1;
    }
    assert(pieces.take(k as int) =~= pieces);
    Ok(cs)
}

/// Reads an aperture macro definition, if the payload has that shape.
fn classify_macro(p: &Vec<char>) -> (r: Option<Result<Command, GerberError>>)
    ensures
        macro_shape(p@) <==> r is Some,
        macro_shape(p@) ==> result_model(r.unwrap()) == extended_model(p@),
{
    let n = p.len();
    let k = find_char(p, 0, n, '*');
    proof {
        assert(p@.subrange(0, n as int) =~= p@);
    }
    if n < 2 || p[0] != 'A' || p[1] != 'M' || !(2 < k && k < n) || !alnum_only(p, 2, k) {
        return None;
    }
    let ranges = split_ranges(p, k + 1, n, '*');
    let ghost pieces = split_on(p@.subrange(k + 1, n as int), '*');
    proof {
        assert(p@.skip(k + 1) =~= p@.subrange(k + 1, n as int));
    }
    match read_statements(p, &ranges, Ghost(pieces)) {
        Err(e) => Some(Err(e)),
        Ok(contents) => Some(Ok(Command::ApertureMacro { name: text_of(p, 2, k), contents })),
    }
}

/// Reads an extended block: the text between `%` signs, line breaks and one
/// trailing `*` removed.
#[verifier::rlimit(40)]
pub fn classify_extended(p: &Vec<char>) -> (r: Result<Command, GerberError>)
    ensures
        result_model(r) == extended_model(p@),
{
    let n = p.len();
    if let Some(c) = classify_attribute(p) {
        return Ok(c);
    }
    proof {
        assert(p@.subrange(0, n as int) =~= p@);
        if n >= 5 {
            assert(p@.take(5) =~= p@.subrange(0, 5));
        }
    }
    if n == 10 && is_text(p, 0, 5, &['F', 'S', 'L', 'A', 'X']) && '0' <= p[5] && p[5] <= '9' && '0' <= p[6]
        && p[6] <= '9' && p[7] == 'Y' && '0' <= p[8] && p[8] <= '9' && '0' <= p[9] && p[9] <= '9' {
        let x = CoordinateFormat { integer: (p[5] as u32 - '0' as u32) as u8, decimal: (p[6] as u32 - '0' as u32) as u8 };
        let y = CoordinateFormat { integer: (p[8] as u32 - '0' as u32) as u8, decimal: (p[9] as u32 - '0' as u32) as u8 };
        return Ok(Command::SetCoordinateFormat { x, y });
    }
    if is_text(p, 0, n, &['M', 'O', 'M', 'M']) {
        return Ok(Command::SetMode(Mode::Millimeters));
    }
    if is_text(p, 0, n, &['M', 'O', 'I', 'N']) {
        return Ok(Command::SetMode(Mode::Inches));
    }
    if n >= 2 && p[0] == 'T' && p[1] == 'D' {
        proof {
            assert(p@.skip(2) =~= p@.subrange(2, n as int));
        }
        let name = if n > 2 { Some(text_of(p, 2, n)) } else { None };
        return Ok(Command::DeleteAttribute { name });
    }
    if is_text(p, 0, n, &['L', 'P', 'D']) {
        return Ok(Command::LoadPolarity(Polarity::Dark));
    }
    if is_text(p, 0, n, &['L', 'P', 'C']) {
        return Ok(Command::LoadPolarity(Polarity::Clear));
    }
    if let Some(r) = classify_macro(p) {
        return r;
    }
    if let Some(r) = classify_aperture(p) {
        return r;
    }
    Ok(Command::Unknown(text_of(p, 0, n)))
}

/// Payload of an extended block: its text with line breaks and one trailing
/// `*` removed.
pub open spec fn extended_payload(s: Seq<char>) -> Seq<char> {
    let w = without_line_breaks(s);
    if w.len() > 0 && w.last() == '*' {
        w.drop_last()
    } else {
        w
    }
}

/// At least one.
pub open spec fn at_least_one(n: int) -> int {
    if n > 0 {
        n
    } else {
        1
    }
}

/// Commands of the Gerber text `t` from position `i` on.
///
/// At `%` an extended block runs to the next `%`; with none the text is
/// unterminated. Elsewhere a plain block runs to the next `*`; text that
/// reaches a `%` or the end of the text first is no block and is skipped,
/// as is an empty block.
pub open spec fn commands_from(t: Seq<char>, i: int) -> Result<Seq<CommandModel>, ErrorModel>
    decreases t.len() - i,
{
    if i < 0 || i >= t.len() {
        Ok(Seq::empty())
    } else if t[i] == '%' {
        let f = first_of(t.skip(i + 1), '%');
        let j = i + 1 + f;
        if f < 0 || j >= t.len() {
            Err(ErrorModel::Unterminated(t.skip(i)))
        } else {
            match extended_model(extended_payload(t.subrange(i + 1, j))) {
                Err(e) => Err(e),
                Ok(c) => match commands_from(t, j + 1) {
                    Err(e) => Err(e),
                    Ok(cs) => Ok(seq![c] + cs),
                },
            }
        }
    } else {
        let a = first_of(t.skip(i), '*');
        let b = first_of(t.subrange(i, i + a), '%');
        if b < a {
            commands_from(t, i + at_least_one(b))
        } else if a < 0 || i + a >= t.len() {
            Ok(Seq::empty())
        } else if a == 0 {
            commands_from(t, i + 1)
        } else {
            match plain_model(without_line_breaks(t.subrange(i, i + a))) {
                Err(e) => Err(e),
                Ok(c) => match commands_from(t, i + a + 1) {
                    Err(e) => Err(e),
                    Ok(cs) => Ok(seq![c] + cs),
                },
            }
        }
    }
}

/// The characters of `t[from..to]` but carriage returns and line feeds.
fn without_breaks(t: &Vec<char>, from: usize, to: usize) -> (r: Vec<char>)
    requires
        from <= to <= t@.len(),
    ensures
        r@ == without_line_breaks(t@.subrange(from as int, to as int)),
{
    let mut r: Vec<char> = Vec::new();
    let mut i = from;
    while i < to
        invariant
            from <= i <= to <= t@.len(),
            r@ == without_line_breaks(t@.subrange(from as int, i as int)),
        decreases to - i,
    {
        proof {
            assert(t@.subrange(from as int, i + 1).drop_last() =~= t@.subrange(from as int, i as int));
        }
        if t[i] != '\r' && t[i] != '\n' {
            r.push(t[i]);
        }
        i = i + 1;
    }
    r
}

pub open spec fn image_model(cs: Seq<Command>) -> Seq<CommandModel> {
    cs.map_values(|c: Command| c@)
}

/// Joins the commands parsed so far with what the rest of the text gives.
pub open spec fn joined(done: Seq<CommandModel>, rest: Result<Seq<CommandModel>, ErrorModel>) -> Result<Seq<CommandModel>, ErrorModel> {
    match rest {
        Ok(cs) => Ok(done + cs),
        Err(e) => Err(e),
    }
}

impl Image {
    /// Parses Gerber text into its commands, in file order.
    #[verifier::rlimit(60)]
    pub fn parse(u: &str) -> (r: Result<Image, GerberError>)
        ensures
            match r {
                Ok(img) => commands_from(u@, 0) == Ok::<Seq<CommandModel>, ErrorModel>(image_model(img.commands@))
                    && formats_in_range(image_model(img.commands@)),
                Err(e) => commands_from(u@, 0) == Err::<Seq<CommandModel>, ErrorModel>(e@),
            },
    {
        let t = chars_of(u);
        let n = t.len();
        let mut commands: Vec<Command> = Vec::new();
        let mut i: usize = 0;
        proof {
            assert(image_model(commands@) =~= Seq::<CommandModel>::empty());
            assert(Seq::<CommandModel>::empty() + Seq::<CommandModel>::empty() =~= Seq::<CommandModel>::empty());
            match commands_from(t@, 0) {
                Ok(cs) => {
                    assert(Seq::<CommandModel>::empty() + cs =~= cs);
                },
                Err(e) => {},
            }
        }
        while i < n
            invariant
                n == t@.len(),
                t@ == u@,
                i <= n,
                commands_from(t@, 0) == joined(image_model(commands@), commands_from(t@, i as int)),
            decreases n - i,
        {
            let ghost done = image_model(commands@);
            if t[i] == '%' {
                let j = find_char(&t, i + 1, n, '%');
                proof {
                    assert(t@.subrange(i + 1, n as int) =~= t@.skip(i + 1));
                }
                if j == n {
                    proof {
                        assert(t@.subrange(i as int, n as int) =~= t@.skip(i as int));
                    }
                    return Err(GerberError::Unterminated(text_of(&t, i, n)));
                }
                let w = without_breaks(&t, i + 1, j);
                let m = w.len();
                let payload = if m > 0 && w[m - 1] == '*' { sub_prefix(&w, m - 1) } else { w };
                match classify_extended(&payload) {
                    Err(e) => {
                        return Err(e);
                    },
                    Ok(c) => {
                        let ghost cm = c@;
                        commands.push(c);
                        proof {
                            assert(image_model(commands@) =~= done.push(cm));
                            match commands_from(t@, j + 1) {
                                Ok(cs) => {
                                    assert(done + (seq![cm] + cs) =~= done.push(cm) + cs);
                                },
                                Err(e) => {},
                            }
                        }
                        i = j + 1;
                    },
                }
            } else {
                let a = find_char(&t, i, n, '*');
                let b = find_char(&t, i, a, '%');
                proof {
                    assert(t@.subrange(i as int, n as int) =~= t@.skip(i as int));
                }
                if b < a {
                    proof {
                        lemma_first_of_bounds(t@.subrange(i as int, a as int), '%');
                        if b == i {
                            assert(t@.subrange(i as int, a as int)[0] == t@[i as int]);
                        }
                    }
                    i = b;
                } else if a == n {
                    proof {
                        assert(commands_from(t@, i as int) == Ok::<Seq<CommandModel>, ErrorModel>(Seq::empty()));
                        assert(done + Seq::<CommandModel>::empty() =~= done);
                    }
                    i = n;
                } else if a == i {
                    i = i + 1;
                } else {
                    let w = without_breaks(&t, i, a);
                    match classify_plain(&w) {
                        Err(e) => {
                            return Err(e);
                        },
                        Ok(c) => {
                            let ghost cm = c@;
                            commands.push(c);
                            proof {
                                assert(image_model(commands@) =~= done.push(cm));
                                match commands_from(t@, a + 1) {
                                    Ok(cs) => {
                                        assert(done + (seq![cm] + cs) =~= done.push(cm) + cs);
                                    },
                                    Err(e) => {},
                                }
                            }
                            i = a + 1;
                        },
                    }
                }
            }
        }
        proof {
            assert(image_model(commands@) + Seq::<CommandModel>::empty() =~= image_model(commands@));
            lemma_parsed_formats(t@, 0);
        }
        Ok(Image { commands })
    }
}

/// The first `k` characters of `w`.
fn sub_prefix(w: &Vec<char>, k: usize) -> (r: Vec<char>)
    requires
        k <= w@.len(),
    ensures
        r@ == w@.take(k as int),
{
    let r = crate::text::sub_chars(w, 0, k);
    proof {
        assert(w@.subrange(0, k as int) =~= w@.take(k as int));
    }
    r
}

/// A malformed number in a recognised shape: a coordinate outside `i32`, a
/// code outside `u32`, or an aperture parameter that is not a decimal
/// number.
pub open spec fn number_out_of_range(s: Seq<char>) -> bool {
    ||| (int_shape(s) && !fits_i32(int_value(s)))
    ||| (s.len() > 0 && all_digits(s) && nat_value(s) > u32::MAX)
    ||| !decimal_shape(s)
}

/// The rest of a text from a `%` that no other `%` follows.
pub open spec fn unterminated(s: Seq<char>) -> bool {
    s.len() > 0 && s[0] == '%' && first_of(s.skip(1), '%') == s.len() - 1
}

/// What a parse error may be: a number out of range, or an extended block
/// never closed.
pub open spec fn error_allowed(e: ErrorModel) -> bool {
    match e {
        ErrorModel::BadNumber(s) => number_out_of_range(s),
        ErrorModel::Unterminated(s) => unterminated(s),
    }
}

proof fn lemma_plain_errors(b: Seq<char>)
    ensures
        plain_model(b) matches Err(e) ==> error_allowed(e),
{
}

proof fn lemma_statements_errors(pieces: Seq<Seq<char>>)
    ensures
        statements_model(pieces) matches Err(e) ==> error_allowed(e),
    decreases pieces.len(),
{
    if pieces.len() > 0 {
        lemma_statements_errors(pieces.drop_last());
    }
}

proof fn lemma_decimals_errors(pieces: Seq<Seq<char>>)
    ensures
        decimals_model(pieces) matches Err(e) ==> error_allowed(e),
    decreases pieces.len(),
{
    if pieces.len() > 0 {
        lemma_decimals_errors(pieces.drop_last());
    }
}

proof fn lemma_extended_errors(p: Seq<char>)
    ensures
        extended_model(p) matches Err(e) ==> error_allowed(e),
{
    if macro_shape(p) {
        let k = first_of(p, '*');
        lemma_statements_errors(split_on(p.skip(k + 1), '*'));
    } else if aperture_shape(p) {
        let c = first_of(p, ',');
        let d = 3 + lead_digits(p.subrange(3, c));
        lemma_lead_digits_all(p.subrange(3, c));
        assert(p.subrange(3, d) =~= p.subrange(3, c).take(d - 3));
        lemma_decimals_errors(split_on(p.skip(c + 1), 'X'));
    }
}

/// Reading Gerber text fails only on a number out of range or on an
/// extended block that is never closed; any other text, however unknown its
/// shape, is read (as `Unknown` where no shape fits).
pub proof fn lemma_parse_errors(t: Seq<char>, i: int)
    ensures
        commands_from(t, i) matches Err(e) ==> error_allowed(e),
    decreases t.len() - i,
{
    if 0 <= i < t.len() {
        if t[i] == '%' {
            let f = first_of(t.skip(i + 1), '%');
            let j = i + 1 + f;
            lemma_first_of_bounds(t.skip(i + 1), '%');
            if f < 0 || j >= t.len() {
                assert(t.skip(i).skip(1) =~= t.skip(i + 1));
            } else {
                lemma_extended_errors(extended_payload(t.subrange(i + 1, j)));
                lemma_parse_errors(t, j + 1);
            }
        } else {
            let a = first_of(t.skip(i), '*');
            let b = first_of(t.subrange(i, i + a), '%');
            if b < a {
                lemma_parse_errors(t, i + at_least_one(b));
            } else if a < 0 || i + a >= t.len() {
            } else if a == 0 {
                lemma_parse_errors(t, i + 1);
            } else {
                lemma_plain_errors(without_line_breaks(t.subrange(i, i + a)));
                lemma_parse_errors(t, i + a + 1);
            }
        }
    }
}

/// A plain block of no known shape is read as `Unknown` with its text.
pub proof fn lemma_unknown_plain(b: Seq<char>)
    requires
        !op_shape(b),
        !(b.len() >= 4 && b.take(4) == seq!['G', '0', '4', ' ']),
        !(b.len() >= 3 && b[0] == 'D' && '1' <= b[1] <= '9' && all_digits(b.skip(1))),
        b != seq!['M', '0', '2'],
        b != seq!['G', '3', '6'],
        b != seq!['G', '3', '7'],
        interpolation_of(b) is None,
    ensures
        plain_model(b) == Ok::<CommandModel, ErrorModel>(CommandModel::Unknown(b)),
{
}

impl From<u8> for CoordinateFormat {
    /// The format of a two-digit code: tens the integer digits, units the
    /// decimal digits.
    fn from(f: u8) -> (r: CoordinateFormat) {
        CoordinateFormat { integer: f / 10, decimal: f % 10 }
    }
}

impl vstd::std_specs::convert::FromSpecImpl<u8> for CoordinateFormat {
    open spec fn obeys_from_spec() -> bool {
        true
    }

    open spec fn from_spec(f: u8) -> CoordinateFormat {
        CoordinateFormat { integer: f / 10, decimal: f % 10 }
    }
}

impl Default for CoordinateFormat {
    /// Six integer and six decimal digits.
    fn default() -> (r: CoordinateFormat)
        ensures
            r == (CoordinateFormat { integer: 6, decimal: 6 }),
    {
        CoordinateFormat { integer: 6, decimal: 6 }
    }
}

/// A coordinate format command gives at most 9 decimal digits.
pub open spec fn format_ok(c: CommandModel) -> bool {
    match c {
        CommandModel::SetCoordinateFormat { x, y } => x.decimal <= 9 && y.decimal <= 9,
        _ => true,
    }
}

pub open spec fn formats_in_range(cs: Seq<CommandModel>) -> bool {
    forall|i: int| 0 <= i < cs.len() ==> #[trigger] format_ok(cs[i])
}

/// Parsed text sets formats of at most 9 decimal digits: each is one digit.
pub proof fn lemma_parsed_formats(t: Seq<char>, i: int)
    ensures
        commands_from(t, i) matches Ok(cs) ==> formats_in_range(cs),
    decreases t.len() - i,
{
    if 0 <= i < t.len() {
        if t[i] == '%' {
            let f = first_of(t.skip(i + 1), '%');
            let j = i + 1 + f;
            if !(f < 0 || j >= t.len()) {
                lemma_parsed_formats(t, j + 1);
                lemma_parse_formats_step(extended_model(extended_payload(t.subrange(i + 1, j))), commands_from(t, j + 1));
            }
        } else {
            let a = first_of(t.skip(i), '*');
            let b = first_of(t.subrange(i, i + a), '%');
            if b < a {
                lemma_parsed_formats(t, i + at_least_one(b));
            } else if a < 0 || i + a >= t.len() {
            } else if a == 0 {
                lemma_parsed_formats(t, i + 1);
            } else {
                lemma_parsed_formats(t, i + a + 1);
                lemma_parse_formats_step(plain_model(without_line_breaks(t.subrange(i, i + a))), commands_from(t, i + a + 1));
            }
        }
    }
}

proof fn lemma_parse_formats_step(c: Result<CommandModel, ErrorModel>, rest: Result<Seq<CommandModel>, ErrorModel>)
    requires
        c matches Ok(m) ==> format_ok(m),
        rest matches Ok(cs) ==> formats_in_range(cs),
    ensures
        c is Ok && rest is Ok ==> formats_in_range(seq![c->Ok_0] + rest->Ok_0),
{
    if let Ok(m) = c {
        if let Ok(cs) = rest {
            let all = seq![m] + cs;
            assert forall|k: int| 0 <= k < all.len() implies #[trigger] format_ok(all[k]) by {
                if k > 0 {
                    assert(all[k] == cs[k - 1]);
                }
            }
        }
    }
}

impl Image {
    /// Whether every coordinate format command gives at most 9 decimal
    /// digits, as every parsed one does.
    pub fn formats_in_range(&self) -> (r: bool)
        ensures
            r == formats_in_range(image_model(self.commands@)),
    {
        let mut i: usize = 0;
        while i < self.commands.len()
            invariant
                i <= self.commands@.len(),
                forall|k: int| 0 <= k < i ==> #[trigger] format_ok(self.commands@[k]@),
            decreases self.commands@.len() - i,
        {
            match &self.commands[i] {
                Command::SetCoordinateFormat { x, y } => {
                    if x.decimal > 9 || y.decimal > 9 {
                        assert(!format_ok(image_model(self.commands@)[i as int]));
                        return false;
                    }
                },
                _ => {},
            }
            i = i + 1;
        }
        proof {
            assert forall|k: int| 0 <= k < image_model(self.commands@).len() implies #[trigger] format_ok(image_model(self.commands@)[k]) by {
                assert(format_ok(self.commands@[k]@));
            }
        }
        true
    }
}

} // verus!
