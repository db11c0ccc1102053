//! What a compute-shader backend needs besides the tapes: the names that
//! the generated text uses, and the buffers that a render starts from.
use vstd::prelude::*;
use vstd::string::StringExecFns;
use crate::choice::Choice;

verus! {

/// Shader mode
#[derive(Copy, Clone, Debug, PartialEq, Eq, Structural)]
pub enum Mode {
    /// One value for each point.
    Pixel,
    /// A lower and an upper bound for each box.
    Interval,
}

impl Mode {
    /// The prefix of the functions that compute in this mode.
    pub open spec fn prefix_text(self) -> Seq<char> {
        match self {
            Mode::Pixel => "f"@,
            Mode::Interval => "i"@,
        }
    }

    /// The type under which the variables are handed to a function.
    pub open spec fn vars_text(self) -> Seq<char> {
        match self {
            Mode::Pixel => "const thread float*"@,
            Mode::Interval => "const thread float2*"@,
        }
    }

    /// The type of a local value.
    pub open spec fn local_text(self) -> Seq<char> {
        match self {
            Mode::Pixel => "float"@,
            Mode::Interval => "float2"@,
        }
    }

    /// The type under which the choices are handed to a function.
    pub open spec fn choice_text(self) -> Seq<char> {
        match self {
            Mode::Pixel => "const device uint8_t*"@,
            Mode::Interval => "device uint8_t*"@,
        }
    }

    /// The prefix of the functions that compute in this mode.
    pub fn function_prefix(&self) -> (r: &'static str)
        ensures
            r@ == self.prefix_text(),
    {
        match self {
            Mode::Pixel => "f",
            Mode::Interval => "i",
        }
    }

    /// The type under which the variables are handed to a function.
    pub fn vars_type(&self) -> (r: &'static str)
        ensures
            r@ == self.vars_text(),
    {
        match self {
            Mode::Pixel => "const thread float*",
            Mode::Interval => "const thread float2*",
        }
    }

    /// The type of a local value.
    pub fn local_type(&self) -> (r: &'static str)
        ensures
            r@ == self.local_text(),
    {
        match self {
            Mode::Pixel => "float",
            Mode::Interval => "float2",
        }
    }

    /// The type under which the choices are handed to a function: only the
    /// interval mode writes them.
    pub fn choice_type(&self) -> (r: &'static str)
        ensures
            r@ == self.choice_text(),
    {
        match self {
            Mode::Pixel => "const device uint8_t*",
            Mode::Interval => "device uint8_t*",
        }
    }
}

impl Choice {
    /// The name of the choice in generated text, if it has one.
    pub fn to_metal(self) -> (r: Option<&'static str>)
        ensures
            match self {
                Choice::Left => r matches Some(s) && s@ == "LHS"@,
                Choice::Right => r matches Some(s) && s@ == "RHS"@,
                Choice::Both => r matches Some(s) && s@ == "BOTH"@,
                Choice::Unknown => r is None,
            },
    {
        match self {
            Choice::Left => Some("LHS"),
            Choice::Right => Some("RHS"),
            Choice::Both => Some("BOTH"),
            Choice::Unknown => None,
        }
    }
}

/// The side of a render tile, in pixels.
pub const TILE_SIZE: u32 = 8;

/// What a choice buffer holds before anything is known: both sides.
pub const EVERY_SIDE: u8 = 3;

/// The configuration block passed to compute
#[derive(Clone, Copy, Debug, PartialEq, Eq, Structural)]
pub struct RenderConfig {
    /// Total image size, in pixels.  This will be a multiple of `tile_size`.
    pub image_size: u32,
    /// Size of a render tile, in pixels
    pub tile_size: u32,
    /// Index of the X variable in `vars`, or `u32::MAX` if not present
    pub var_index_x: u32,
    /// Index of the Y variable in `vars`, or `u32::MAX` if not present
    pub var_index_y: u32,
    /// Index of the Z variable in `vars`, or `u32::MAX` if not present
    pub var_index_z: u32,
}

impl Default for RenderConfig {
    /// A configuration of zeros.
    fn default() -> (r: RenderConfig)
        ensures
            r == (RenderConfig {
                image_size: 0,
                tile_size: 0,
                var_index_x: 0,
                var_index_y: 0,
                var_index_z: 0,
            }),
    {
        RenderConfig { image_size: 0, tile_size: 0, var_index_x: 0, var_index_y: 0, var_index_z: 0 }
    }
}

/// The index of a variable as the shader sees it: itself if it fits in 32
/// bits, and `u32::MAX` if not.
pub open spec fn shader_index(v: usize) -> u32 {
    if v <= u32::MAX {
        v as u32
    } else {
        u32::MAX
    }
}

/// The word that names the tile in column `x` and row `y`.
pub open spec fn tile_word(x: int, y: int) -> int {
    x * 65536 + y
}

impl RenderConfig {
    /// The configuration for a square picture of `size` pixels whose X and
    /// Y are the variables with the given indices. The size has to fit in
    /// 32 bits and be a multiple of the tile size.
    pub fn new(size: usize, var_x: usize, var_y: usize) -> (r: RenderConfig)
        requires
            size <= u32::MAX,
            size % (TILE_SIZE as usize) == 0,
        ensures
            r == (RenderConfig {
                image_size: size as u32,
                tile_size: TILE_SIZE,
                var_index_x: shader_index(var_x),
                var_index_y: shader_index(var_y),
                var_index_z: u32::MAX,
            }),
    {
        RenderConfig {
            tile_size: TILE_SIZE,
            image_size: size as u32,
            var_index_x: if var_x <= u32::MAX as usize {
                var_x as u32
            } else {
                u32::MAX
            },
            var_index_y: if var_y <= u32::MAX as usize {
                var_y as u32
            } else {
                u32::MAX
            },
            var_index_z: u32::MAX,
        }
    }

    /// The number of tiles along one side of the picture.
    pub open spec fn side(&self) -> int {
        self.image_size as int / self.tile_size as int
    }

    /// Returns the number of tiles of the picture: one thread group each.
    pub fn group_count(&self) -> (r: u64)
        requires
            self.tile_size > 0,
        ensures
            r == self.side() * self.side(),
    {
        let n: u64 = (self.image_size / self.tile_size) as u64;
        assert(n * n <= 0xffff_ffff * 0xffff_ffff) by (nonlinear_arith)
            requires
                n <= 0xffff_ffff,
        ;
        n * n
    }

    /// Lists every tile of the picture, column by column: the tile in
    /// column `x` and row `y` is the word with `x` in its upper and `y` in
    /// its lower half.
    pub fn tiles(&self) -> (r: Vec<u32>)
        requires
            self.tile_size > 0,
            self.side() <= 65536,
        ensures
            r@.len() == self.side() * self.side(),
            forall|x: int, y: int|
                0 <= x < self.side() && 0 <= y < self.side() ==> #[trigger] r@[x * self.side() + y]
                    == tile_word(x, y),
    {
        let n: u32 = self.image_size / self.tile_size;
        let mut tiles: Vec<u32> = Vec::new();
        let mut x: u32 = 0;
        while x < n
            invariant
                n == self.side(),
                n <= 65536,
                x <= n,
                tiles@.len() == x * n,
                forall|a: int, b: int|
                    0 <= a < x && 0 <= b < n ==> #[trigger] tiles@[a * n + b] == tile_word(a, b),
            decreases n - x,
        {
            let mut y: u32 = 0;
            while y < n
                invariant
                    n == self.side(),
                    n <= 65536,
                    x < n,
                    y <= n,
                    tiles@.len() == x * n + y,
                    forall|a: int, b: int|
                        0 <= a < x && 0 <= b < n ==> #[trigger] tiles@[a * n + b] == tile_word(
                            a,
                            b,
                        ),
                    forall|b: int| 0 <= b < y ==> #[trigger] tiles@[x * n + b] == tile_word(x as int, b),
                decreases n - y,
            {
                let ghost before = tiles@;
                tiles.push(x * 65536 + y);
                proof {
                    assert forall|a: int, b: int| 0 <= a < x && 0 <= b < n implies #[trigger] tiles@[a
                        * n + b] == tile_word(a, b) by {
                        assert(a * n + b < x * n) by (nonlinear_arith)
                            requires
                                0 <= a < x,
                                0 <= b < n,
                        ;
                    }
                }
                y = y + 1;
            }
            proof {
                assert((x + 1) * n == x * n + n) by (nonlinear_arith);
            }
            x = x + 1;
        }
        tiles
    }
}

/// The choice buffer that a render starts from: for each of `groups` tiles
/// and each of `choices` `min` and `max` operations, both sides.
pub fn initial_choices(groups: usize, choices: usize) -> (r: Vec<u8>)
    requires
        groups * choices <= usize::MAX,
    ensures
        r@.len() == groups * choices,
        forall|i: int| 0 <= i < r@.len() ==> r@[i] == EVERY_SIDE,
{
    let total: usize = groups * choices;
    let mut r: Vec<u8> = Vec::with_capacity(total);
    let mut i: usize = 0;
    while i < total
        invariant
            i <= total,
            r@.len() == i,
            forall|j: int| 0 <= j < i ==> r@[j] == EVERY_SIDE,
        decreases total - i,
    {
        r.push(EVERY_SIDE);
        i = i + 1;
    }
    r
}

/// The character for the digit `d`.
pub open spec fn digit(d: nat) -> char {
    if d == 0 {
        '0'
    } else if d == 1 {
        '1'
    } else if d == 2 {
        '2'
    } else if d == 3 {
        '3'
    } else if d == 4 {
        '4'
    } else if d == 5 {
        '5'
    } else if d == 6 {
        '6'
    } else if d == 7 {
        '7'
    } else if d == 8 {
        '8'
    } else {
        '9'
    }
}

/// The number `n` written in decimal digits.
pub open spec fn decimal(n: nat) -> Seq<char>
    decreases n,
{
    if n < 10 {
        seq![digit(n)]
    } else {
        decimal(n / 10).push(digit(n % 10))
    }
}

fn digit_str(d: usize) -> (r: &'static str)
    requires
        d < 10,
    ensures
        r@ == seq![digit(d as nat)],
{
    proof {
        reveal_strlit("0");
        reveal_strlit("1");
        reveal_strlit("2");
        reveal_strlit("3");
        reveal_strlit("4");
        reveal_strlit("5");
        reveal_strlit("6");
        reveal_strlit("7");
        reveal_strlit("8");
        reveal_strlit("9");
    }
    let r = if d == 0 {
        "0"
    } else if d == 1 {
        "1"
    } else if d == 2 {
        "2"
    } else if d == 3 {
        "3"
    } else if d == 4 {
        "4"
    } else if d == 5 {
        "5"
    } else if d == 6 {
        "6"
    } else if d == 7 {
        "7"
    } else if d == 8 {
        "8"
    } else {
        "9"
    };
    proof {
        assert(r@ =~= seq![digit(d as nat)]);
    }
    r
}

/// Appends the number `n` in decimal digits.
pub fn push_decimal(out: &mut String, n: usize)
    ensures
        final(out)@ == old(out)@ + decimal(n as nat),
    decreases n,
{
    if n >= 10 {
        push_decimal(out, n / 10);
    }
    out.append(digit_str(n % 10));
    proof {
        if n >= 10 {
            assert(final(out)@ =~= old(out)@ + decimal((n / 10) as nat).push(digit((n % 10) as nat)));
        } else {
            assert(final(out)@ =~= old(out)@ + seq![digit(n as nat)]);
        }
    }
}

/// The registers `regs` as arguments of a call: `, v` and the number, for
/// each.
pub open spec fn arguments(regs: Seq<usize>) -> Seq<char>
    decreases regs.len(),
{
    if regs.len() == 0 {
        Seq::empty()
    } else {
        arguments(regs.drop_last()) + ", v"@ + decimal(regs.last() as nat)
    }
}

/// The registers `regs` as parameters of a declaration: each with the
/// words `before` and `after` round the type `local`; the first on a line
/// of its own, the others after a comma.
pub open spec fn parameters(
    regs: Seq<usize>,
    before: Seq<char>,
    local: Seq<char>,
    after: Seq<char>,
) -> Seq<char>
    decreases regs.len(),
{
    if regs.len() == 0 {
        Seq::empty()
    } else {
        parameters(regs.drop_last(), before, local, after) + (if regs.len() == 1 {
            ",\n    "@
        } else {
            ", "@
        }) + before + local + after + decimal(regs.last() as nat)
    }
}

/// A generated function.
///
/// The opening of the function is omitted but can be reconstructed
/// from the index, inputs, and outputs.
pub struct Function {
    /// The number in the function's name
    pub index: usize,
    /// The statements of the function
    pub body: String,
    /// Whether the function returns the value of the whole program
    pub root: bool,
    /// Registers which are sourced externally to this block and unmodified,
    /// in ascending order
    pub inputs: Vec<usize>,
    /// Registers which are sourced externally to this block and modified,
    /// in ascending order
    pub outputs: Vec<usize>,
}

/// The registers are listed in ascending order, none of them twice.
pub open spec fn ascending(regs: Seq<usize>) -> bool {
    forall|i: int, j: int| 0 <= i < j < regs.len() ==> regs[i] < regs[j]
}

/// Tells whether the registers are listed in ascending order, none of them
/// twice.
pub fn is_ascending(regs: &Vec<usize>) -> (r: bool)
    ensures
        r == ascending(regs@),
{
    let mut k: usize = 1;
    while k < regs.len()
        invariant
            1 <= k,
            forall|i: int, j: int| 0 <= i < j < k && j < regs@.len() ==> regs@[i] < regs@[j],
        decreases regs@.len() - k,
    {
        if regs[k - 1] >= regs[k] {
            return false;
        }
        proof {
            assert forall|i: int, j: int| 0 <= i < j < k + 1 && j < regs@.len() implies regs@[i]
                < regs@[j] by {
                if j == k && i < k - 1 {
                    assert(regs@[i] < regs@[k - 1]);
                }
            }
        }
        k = k + 1;
    }
    true
}

impl Function {
    /// The registers of the function are sets: each list is in ascending
    /// order and names no register twice.
    pub open spec fn wf(&self) -> bool {
        ascending(self.inputs@) && ascending(self.outputs@)
    }

    /// Tells whether the registers of the function are sets.
    pub fn is_wf(&self) -> (r: bool)
        ensures
            r == self.wf(),
    {
        is_ascending(&self.inputs) && is_ascending(&self.outputs)
    }

    /// The text that calls the function.
    pub open spec fn call_text(&self) -> Seq<char> {
        "t_shape_"@ + decimal(self.index as nat) + "(vars, choices"@ + arguments(self.inputs@)
            + arguments(self.outputs@) + ");"@
    }

    /// The text that declares the function in the mode `mode`, up to and
    /// without the body.
    pub open spec fn declaration_text(&self, mode: Mode) -> Seq<char> {
        "inline "@ + (if self.root {
            mode.local_text()
        } else {
            "void"@
        }) + " t_shape_"@ + decimal(self.index as nat) + "(\n    "@ + mode.vars_text() + " vars, "@
            + mode.choice_text() + " choices"@ + parameters(
            self.inputs@,
            "const "@,
            mode.local_text(),
            " v"@,
        ) + parameters(self.outputs@, "thread "@, mode.local_text(), "& v"@) + "\n)"@
    }

    /// Generates the opening of the function, without its body
    pub fn declaration(&self, mode: Mode) -> (out: String)
        ensures
            out@ == self.declaration_text(mode),
    {
        let local = mode.local_type();
        let mut out = String::from_str("inline ");
        out.append(
            if self.root {
                local
            } else {
                "void"
            },
        );
        out.append(" t_shape_");
        push_decimal(&mut out, self.index);
        out.append("(\n    ");
        out.append(mode.vars_type());
        out.append(" vars, ");
        out.append(mode.choice_type());
        out.append(" choices");
        let ghost head = out@;
        let mut k: usize = 0;
        while k < self.inputs.len()
            invariant
                k <= self.inputs@.len(),
                local@ == mode.local_text(),
                out@ == head + parameters(
                    self.inputs@.take(k as int),
                    "const "@,
                    mode.local_text(),
                    " v"@,
                ),
            decreases self.inputs@.len() - k,
        {
            proof {
                assert(self.inputs@.take(k + 1).drop_last() == self.inputs@.take(k as int));
            }
            if k == 0 {
                out.append(",\n    ");
            } else {
                out.append(", ");
            }
            out.append("const ");
            out.append(local);
            out.append(" v");
            push_decimal(&mut out, self.inputs[k]);
            k = k + 1;
        }
        proof {
            assert(self.inputs@.take(k as int) == self.inputs@);
        }
        let ghost middle = out@;
        let mut k: usize = 0;
        while k < self.outputs.len()
            invariant
                k <= self.outputs@.len(),
                local@ == mode.local_text(),
                out@ == middle + parameters(
                    self.outputs@.take(k as int),
                    "thread "@,
                    mode.local_text(),
                    "& v"@,
                ),
            decreases self.outputs@.len() - k,
        {
            proof {
                assert(self.outputs@.take(k + 1).drop_last() == self.outputs@.take(k as int));
            }
            if k == 0 {
                out.append(",\n    ");
            } else {
                out.append(", ");
            }
            out.append("thread ");
            out.append(local);
            out.append("& v");
            push_decimal(&mut out, self.outputs[k]);
            k = k + 1;
        }
        proof {
            assert(self.outputs@.take(k as int) == self.outputs@);
        }
        out.append("\n)");
        out
    }

    /// Generates text to call a function
    pub fn call(&self) -> (out: String)
        ensures
            out@ == self.call_text(),
    {
        let mut out = String::from_str("t_shape_");
        push_decimal(&mut out, self.index);
        out.append("(vars, choices");
        let ghost head = out@;
        let mut k: usize = 0;
        while k < self.inputs.len()
            invariant
                k <= self.inputs@.len(),
                out@ == head + arguments(self.inputs@.take(k as int)),
            decreases self.inputs@.len() - k,
        {
            proof {
                assert(self.inputs@.take(k + 1).drop_last() == self.inputs@.take(k as int));
            }
            out.append(", v");
            push_decimal(&mut out, self.inputs[k]);
            k = k + 1;
        }
        proof {
            assert(self.inputs@.take(k as int) == self.inputs@);
        }
        let ghost middle = out@;
        let mut k: usize = 0;
        while k < self.outputs.len()
            invariant
                k <= self.outputs@.len(),
                out@ == middle + arguments(self.outputs@.take(k as int)),
            decreases self.outputs@.len() - k,
        {
            proof {
                assert(self.outputs@.take(k + 1).drop_last() == self.outputs@.take(k as int));
            }
            out.append(", v");
            push_decimal(&mut out, self.outputs[k]);
            k = k + 1;
        }
        proof {
            assert(self.outputs@.take(k as int) == self.outputs@);
        }
        out.append(");");
        out
    }
}

} // verus!
