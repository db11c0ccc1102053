//! Tapes run by a small evaluator: points, intervals, and pictures rendered
//! by recursive subdivision with simplification on the way down.
use fidget::choice::Choice;
use fidget::context::{Context, Node, Op};
use fidget::data::{VmData, VmWorkspace};
use fidget::op::{BinaryKind, UnaryKind};
use fidget::reg_op::RegOp;

type Interval = [f32; 2];

fn bits(v: f32) -> u32 {
    v.to_bits()
}

fn imm(b: u32) -> f32 {
    f32::from_bits(b)
}

/// Runs one operation on the registers `s` and the spill slots `m`.
fn apply(op: RegOp, s: &mut [f32], m: &mut [f32], p: [f32; 3], vars: &[f32]) {
    match op {
        RegOp::Input(o, axis) => s[o as usize] = p[axis as usize],
        RegOp::Var(o, v) => s[o as usize] = vars[v as usize],
        RegOp::CopyImm(o, c) => s[o as usize] = imm(c),
        RegOp::NegReg(o, a) => s[o as usize] = -s[a as usize],
        RegOp::AbsReg(o, a) => s[o as usize] = s[a as usize].abs(),
        RegOp::RecipReg(o, a) => s[o as usize] = 1.0 / s[a as usize],
        RegOp::SqrtReg(o, a) => s[o as usize] = s[a as usize].sqrt(),
        RegOp::SquareReg(o, a) => s[o as usize] = s[a as usize] * s[a as usize],
        RegOp::SinReg(o, a) => s[o as usize] = s[a as usize].sin(),
        RegOp::CosReg(o, a) => s[o as usize] = s[a as usize].cos(),
        RegOp::TanReg(o, a) => s[o as usize] = s[a as usize].tan(),
        RegOp::AsinReg(o, a) => s[o as usize] = s[a as usize].asin(),
        RegOp::AcosReg(o, a) => s[o as usize] = s[a as usize].acos(),
        RegOp::AtanReg(o, a) => s[o as usize] = s[a as usize].atan(),
        RegOp::ExpReg(o, a) => s[o as usize] = s[a as usize].exp(),
        RegOp::LnReg(o, a) => s[o as usize] = s[a as usize].ln(),
        RegOp::CopyReg(o, a) => s[o as usize] = s[a as usize],
        RegOp::AddRegReg(o, a, b) => s[o as usize] = s[a as usize] + s[b as usize],
        RegOp::SubRegReg(o, a, b) => s[o as usize] = s[a as usize] - s[b as usize],
        RegOp::MulRegReg(o, a, b) => s[o as usize] = s[a as usize] * s[b as usize],
        RegOp::DivRegReg(o, a, b) => s[o as usize] = s[a as usize] / s[b as usize],
        RegOp::MinRegReg(o, a, b) => s[o as usize] = s[a as usize].min(s[b as usize]),
        RegOp::MaxRegReg(o, a, b) => s[o as usize] = s[a as usize].max(s[b as usize]),
        RegOp::AddRegImm(o, a, c) => s[o as usize] = s[a as usize] + imm(c),
        RegOp::MulRegImm(o, a, c) => s[o as usize] = s[a as usize] * imm(c),
        RegOp::SubRegImm(o, a, c) => s[o as usize] = s[a as usize] - imm(c),
        RegOp::SubImmReg(o, a, c) => s[o as usize] = imm(c) - s[a as usize],
        RegOp::DivRegImm(o, a, c) => s[o as usize] = s[a as usize] / imm(c),
        RegOp::DivImmReg(o, a, c) => s[o as usize] = imm(c) / s[a as usize],
        RegOp::MinRegImm(o, a, c) => s[o as usize] = s[a as usize].min(imm(c)),
        RegOp::MaxRegImm(o, a, c) => s[o as usize] = s[a as usize].max(imm(c)),
        RegOp::Load(reg, mem) => s[reg as usize] = m[mem as usize],
        RegOp::Store(mem, reg) => m[mem as usize] = s[reg as usize],
    }
}

/// Runs a register tape, given in evaluation order, at one point. The
/// registers and spill slots start out holding `junk`.
fn eval_point(code: &[RegOp], slots: usize, p: [f32; 3], vars: &[f32], junk: f32) -> f32 {
    let mut s = vec![junk; 256];
    let mut m = vec![junk; slots];
    for op in code {
        apply(*op, &mut s, &mut m, p, vars);
    }
    s[0]
}

/// The choice that holds for a `min` or `max` about to run on the contents
/// `s`: the side that gives the result, or both where the sides are equal or
/// not ordered.
fn choice_of(op: RegOp, s: &[f32]) -> Option<Choice> {
    let (a, b, least) = match op {
        RegOp::MinRegReg(_, a, b) => (s[a as usize], s[b as usize], true),
        RegOp::MaxRegReg(_, a, b) => (s[a as usize], s[b as usize], false),
        RegOp::MinRegImm(_, a, c) => (s[a as usize], imm(c), true),
        RegOp::MaxRegImm(_, a, c) => (s[a as usize], imm(c), false),
        _ => return None,
    };
    Some(if a.is_nan() || b.is_nan() || a == b {
        Choice::Both
    } else if (a < b) == least {
        Choice::Left
    } else {
        Choice::Right
    })
}

/// Runs a register tape at one point and records the choice that holds for
/// each `min` and `max`, in the order in which they run.
fn point_choices(code: &[RegOp], slots: usize, p: [f32; 3], vars: &[f32]) -> Vec<Choice> {
    let mut s = vec![0.0f32; 256];
    let mut m = vec![0.0f32; slots];
    let mut choices = vec![];
    for op in code {
        if let Some(c) = choice_of(*op, &s) {
            choices.push(c);
        }
        apply(*op, &mut s, &mut m, p, vars);
    }
    choices
}

fn value<const N: usize>(d: &VmData<N>, p: [f32; 3], vars: &[f32]) -> f32 {
    let code = d.iter_asm();
    let a = eval_point(&code, d.slot_count(), p, vars, 0.0);
    let b = eval_point(&code, d.slot_count(), p, vars, 1.0e9);
    assert_eq!(a.to_bits(), b.to_bits());
    a
}

fn i_min(a: Interval, b: Interval) -> (Interval, Choice) {
    if a[1] < b[0] {
        (a, Choice::Left)
    } else if b[1] < a[0] {
        (b, Choice::Right)
    } else {
        ([a[0].min(b[0]), a[1].min(b[1])], Choice::Both)
    }
}

fn i_max(a: Interval, b: Interval) -> (Interval, Choice) {
    if a[0] > b[1] {
        (a, Choice::Left)
    } else if b[0] > a[1] {
        (b, Choice::Right)
    } else {
        ([a[0].max(b[0]), a[1].max(b[1])], Choice::Both)
    }
}

fn i_mul(a: Interval, b: Interval) -> Interval {
    let c = [a[0] * b[0], a[0] * b[1], a[1] * b[0], a[1] * b[1]];
    [
        c.iter().cloned().fold(f32::INFINITY, f32::min),
        c.iter().cloned().fold(f32::NEG_INFINITY, f32::max),
    ]
}

fn i_square(a: Interval) -> Interval {
    if a[0] >= 0.0 {
        [a[0] * a[0], a[1] * a[1]]
    } else if a[1] <= 0.0 {
        [a[1] * a[1], a[0] * a[0]]
    } else {
        [0.0, (a[0] * a[0]).max(a[1] * a[1])]
    }
}

/// Runs a register tape, given in evaluation order, on a box, and records
/// a choice for each `min` and `max` in the order in which they run. Only
/// the operations that the models below use are covered.
fn eval_interval(code: &[RegOp], slots: usize, p: [Interval; 3]) -> (Interval, Vec<Choice>) {
    let mut s = vec![[0.0f32, 0.0]; 256];
    let mut m = vec![[0.0f32, 0.0]; slots];
    let mut choices = vec![];
    for op in code {
        match *op {
            RegOp::Input(o, axis) => s[o as usize] = p[axis as usize],
            RegOp::CopyImm(o, c) => s[o as usize] = [imm(c), imm(c)],
            RegOp::CopyReg(o, a) => s[o as usize] = s[a as usize],
            RegOp::NegReg(o, a) => s[o as usize] = [-s[a as usize][1], -s[a as usize][0]],
            RegOp::SquareReg(o, a) => s[o as usize] = i_square(s[a as usize]),
            RegOp::SqrtReg(o, a) => {
                let v = s[a as usize];
                s[o as usize] = [v[0].max(0.0).sqrt(), v[1].max(0.0).sqrt()]
            }
            RegOp::AddRegReg(o, a, b) => {
                s[o as usize] = [s[a as usize][0] + s[b as usize][0], s[a as usize][1] + s[b as usize][1]]
            }
            RegOp::SubRegReg(o, a, b) => {
                s[o as usize] = [s[a as usize][0] - s[b as usize][1], s[a as usize][1] - s[b as usize][0]]
            }
            RegOp::MulRegReg(o, a, b) => s[o as usize] = i_mul(s[a as usize], s[b as usize]),
            RegOp::AddRegImm(o, a, c) => {
                s[o as usize] = [s[a as usize][0] + imm(c), s[a as usize][1] + imm(c)]
            }
            RegOp::SubRegImm(o, a, c) => {
                s[o as usize] = [s[a as usize][0] - imm(c), s[a as usize][1] - imm(c)]
            }
            RegOp::SubImmReg(o, a, c) => {
                s[o as usize] = [imm(c) - s[a as usize][1], imm(c) - s[a as usize][0]]
            }
            RegOp::MulRegImm(o, a, c) => s[o as usize] = i_mul(s[a as usize], [imm(c), imm(c)]),
            RegOp::MinRegReg(o, a, b) => {
                let (v, c) = i_min(s[a as usize], s[b as usize]);
                s[o as usize] = v;
                choices.push(c);
            }
            RegOp::MaxRegReg(o, a, b) => {
                let (v, c) = i_max(s[a as usize], s[b as usize]);
                s[o as usize] = v;
                choices.push(c);
            }
            RegOp::MinRegImm(o, a, c) => {
                let (v, c) = i_min(s[a as usize], [imm(c), imm(c)]);
                s[o as usize] = v;
                choices.push(c);
            }
            RegOp::MaxRegImm(o, a, c) => {
                let (v, c) = i_max(s[a as usize], [imm(c), imm(c)]);
                s[o as usize] = v;
                choices.push(c);
            }
            RegOp::Load(reg, mem) => s[reg as usize] = m[mem as usize],
            RegOp::Store(mem, reg) => m[mem as usize] = s[reg as usize],
            _ => panic!("no interval rule for {:?}", op),
        }
    }
    (s[0], choices)
}

const SIZE: usize = 32;

fn axis(i: usize) -> f32 {
    (2 * i + 1) as f32 / SIZE as f32 - 1.0
}

fn edge(i: usize) -> f32 {
    2.0 * i as f32 / SIZE as f32 - 1.0
}

struct Renderer {
    workspace: VmWorkspace<255>,
    image: Vec<bool>,
    simplified: usize,
    shortest: usize,
}

impl Renderer {
    /// Renders the tile of `size` pixels whose corner is at column `c0` and
    /// row `r0`. Row 0 is the top of the picture.
    fn tile(&mut self, data: &VmData<255>, c0: usize, r0: usize, size: usize) {
        let code = data.iter_asm();
        let x = [edge(c0), edge(c0 + size)];
        let y = [-edge(r0 + size), -edge(r0)];
        let (range, choices) = eval_interval(&code, data.slot_count(), [x, y, [0.0, 0.0]]);
        assert_eq!(choices.len(), data.choice_count());
        if range[1] < 0.0 {
            for r in r0..r0 + size {
                for c in c0..c0 + size {
                    self.image[r * SIZE + c] = true;
                }
            }
            return;
        }
        if range[0] > 0.0 {
            return;
        }
        let shorter;
        let next = if choices.iter().any(|c| *c != Choice::Both) {
            shorter = match data.simplify(&choices, &mut self.workspace, VmData::default()) {
                Ok(d) => d,
                Err((e, _)) => panic!("simplify failed: {:?}", e),
            };
            assert!(shorter.len() < data.len());
            assert!(shorter.choice_count() < data.choice_count());
            self.simplified += 1;
            self.shortest = self.shortest.min(shorter.len());
            &shorter
        } else {
            data
        };
        if size > 4 {
            let half = size / 2;
            self.tile(next, c0, r0, half);
            self.tile(next, c0 + half, r0, half);
            self.tile(next, c0, r0 + half, half);
            self.tile(next, c0 + half, r0 + half, half);
        } else {
            for r in r0..r0 + size {
                for c in c0..c0 + size {
                    let p = [axis(c), -axis(r), 0.0];
                    let v = value(next, p, &[]);
                    assert_eq!(v.to_bits(), value(data, p, &[]).to_bits());
                    self.image[r * SIZE + c] = v < 0.0;
                }
            }
        }
    }
}

fn render_and_compare(data: &VmData<255>, expected: &str) {
    let mut r = Renderer {
        workspace: VmWorkspace::default(),
        image: vec![false; SIZE * SIZE],
        simplified: 0,
        shortest: data.len(),
    };
    r.tile(data, 0, 0, SIZE);
    assert!(r.simplified > 0);
    assert!(r.shortest < data.len());
    let mut img_str = String::new();
    for (i, b) in r.image.iter().enumerate() {
        if i % 32 == 0 {
            img_str += "\n            ";
        }
        img_str.push(if *b { 'X' } else { '.' });
    }
    if img_str != expected {
        println!("image mismatch detected!");
        println!("Expected:\n{expected}\nGot:\n{img_str}");
        panic!("image mismatch");
    }
}

/// The union of boxes given in pixels as columns `c0..c1` and rows
/// `r0..r1`: negative inside.
fn boxes(ctx: &mut Context, list: &[(usize, usize, usize, usize)]) -> Node {
    let x = ctx.x();
    let y = ctx.y();
    let mut all: Option<Node> = None;
    for &(c0, c1, r0, r1) in list {
        let xa = ctx.constant(bits(edge(c0)));
        let xb = ctx.constant(bits(edge(c1)));
        let ya = ctx.constant(bits(-edge(r1)));
        let yb = ctx.constant(bits(-edge(r0)));
        let left = ctx.binary(BinaryKind::Sub, xa, x).unwrap();
        let right = ctx.binary(BinaryKind::Sub, x, xb).unwrap();
        let below = ctx.binary(BinaryKind::Sub, ya, y).unwrap();
        let above = ctx.binary(BinaryKind::Sub, y, yb).unwrap();
        let h = ctx.binary(BinaryKind::Max, left, right).unwrap();
        let v = ctx.binary(BinaryKind::Max, below, above).unwrap();
        let b = ctx.binary(BinaryKind::Max, h, v).unwrap();
        all = Some(match all {
            None => b,
            Some(a) => ctx.binary(BinaryKind::Min, a, b).unwrap(),
        });
    }
    all.unwrap()
}

/// The letters "hi": the stem, arch and leg of the `h`, and the dot and
/// stem of the `i`.
fn hi() -> VmData<255> {
    let mut ctx = Context::new();
    let root = boxes(
        &mut ctx,
        &[
            (17, 18, 0, 15),
            (18, 23, 7, 8),
            (18, 20, 8, 9),
            (22, 24, 8, 9),
            (18, 19, 9, 10),
            (23, 25, 9, 10),
            (24, 25, 10, 15),
            (28, 30, 3, 5),
            (28, 30, 7, 15),
        ],
    );
    VmData::<255>::new(&ctx, root).unwrap()
}

/// A quarter of a disc, laid out row by row.
fn quarter() -> VmData<255> {
    let mut ctx = Context::new();
    let root = boxes(
        &mut ctx,
        &[
            (5, 16, 16, 18),
            (6, 16, 18, 21),
            (7, 16, 21, 22),
            (8, 16, 22, 23),
            (9, 16, 23, 24),
            (10, 16, 24, 25),
            (11, 16, 25, 26),
            (14, 16, 26, 27),
        ],
    );
    VmData::<255>::new(&ctx, root).unwrap()
}

fn check_hi() {
    const EXPECTED: &str = "
            .................X..............
            .................X..............
            .................X..............
            .................X..........XX..
            .................X..........XX..
            .................X..............
            .................X..............
            .................XXXXXX.....XX..
            .................XXX..XX....XX..
            .................XX....XX...XX..
            .................X......X...XX..
            .................X......X...XX..
            .................X......X...XX..
            .................X......X...XX..
            .................X......X...XX..
            ................................
            ................................
            ................................
            ................................
            ................................
            ................................
            ................................
            ................................
            ................................
            ................................
            ................................
            ................................
            ................................
            ................................
            ................................
            ................................
            ................................";
    render_and_compare(&hi(), EXPECTED);
}

fn check_quarter() {
    const EXPECTED: &str = "
            ................................
            ................................
            ................................
            ................................
            ................................
            ................................
            ................................
            ................................
            ................................
            ................................
            ................................
            ................................
            ................................
            ................................
            ................................
            ................................
            .....XXXXXXXXXXX................
            .....XXXXXXXXXXX................
            ......XXXXXXXXXX................
            ......XXXXXXXXXX................
            ......XXXXXXXXXX................
            .......XXXXXXXXX................
            ........XXXXXXXX................
            .........XXXXXXX................
            ..........XXXXXX................
            ...........XXXXX................
            ..............XX................
            ................................
            ................................
            ................................
            ................................
            ................................";
    render_and_compare(&quarter(), EXPECTED);
}

#[test]
fn render_hi_vm() {
    check_hi();
}

#[test]
fn render_quarter_vm() {
    check_quarter();
}

#[test]
fn sum_of_eight_in_four_registers() {
    let mut ctx = Context::new();
    let names = ["a", "b", "c", "d", "e", "f", "g", "h"];
    let mut sum = ctx.var(String::from(names[0]));
    for n in &names[1..] {
        let v = ctx.var(String::from(*n));
        sum = ctx.binary(BinaryKind::Add, sum, v).unwrap();
    }
    let data = VmData::<4>::new(&ctx, sum).unwrap();
    // Each sum is read once, right after its operands are written: two
    // values are alive at most, and nothing is spilled.
    assert_eq!(data.slot_count(), 0);
    assert_eq!(data.len(), 15);
    let vars: Vec<f32> = data
        .vars()
        .iter()
        .map(|n| (names.iter().position(|m| m == n).unwrap() + 1) as f32)
        .collect();
    assert_eq!(value(&data, [0.0; 3], &vars), 36.0);
}

#[test]
fn spilled_sum_is_right() {
    // A balanced sum of thirty-two variables, each weighted by its
    // position, in as few as two registers.
    let mut ctx = Context::new();
    let mut level: Vec<Node> = vec![];
    for i in 0..32 {
        let v = ctx.var(format!("v{}", i));
        let w = ctx.constant(bits((i + 1) as f32));
        level.push(ctx.binary(BinaryKind::Mul, w, v).unwrap());
    }
    while level.len() > 1 {
        let mut next = vec![];
        for pair in level.chunks(2) {
            next.push(ctx.binary(BinaryKind::Add, pair[0], pair[1]).unwrap());
        }
        level = next;
    }
    fn check<const N: usize>(ctx: &Context, root: Node) -> usize {
        let data = VmData::<N>::new(ctx, root).unwrap();
        let vars: Vec<f32> = data
            .vars()
            .iter()
            .map(|n| n[1..].parse::<f32>().unwrap() + 1.0)
            .collect();
        // The sum of the squares of 1..=32.
        assert_eq!(value(&data, [0.0; 3], &vars), 11440.0);
        for op in data.iter_asm() {
            if let RegOp::Load(reg, mem) | RegOp::Store(mem, reg) = op {
                assert!((reg as usize) < N);
                assert!((mem as usize) < data.slot_count());
            }
        }
        data.len()
    }
    let two = check::<2>(&ctx, level[0]);
    let three = check::<3>(&ctx, level[0]);
    let four = check::<4>(&ctx, level[0]);
    let many = check::<255>(&ctx, level[0]);
    assert_eq!(many, 95);
    assert!(four > many);
    assert!(three >= four);
    assert!(two >= three);
}

/// (x - 0.25)^2 + min(y, 0.5 - x) * max(sqrt(|x|), -y) - min(x, 0.1)
fn mixed() -> VmData<3> {
    let mut ctx = Context::new();
    let x = ctx.x();
    let y = ctx.y();
    let quarter = ctx.constant(bits(0.25));
    let half = ctx.constant(bits(0.5));
    let tenth = ctx.constant(bits(0.1));
    let a = ctx.binary(BinaryKind::Sub, x, quarter).unwrap();
    let a2 = ctx.unary(UnaryKind::Square, a).unwrap();
    let b = ctx.binary(BinaryKind::Sub, half, x).unwrap();
    let m = ctx.binary(BinaryKind::Min, y, b).unwrap();
    let ax = ctx.unary(UnaryKind::Abs, x).unwrap();
    let s = ctx.unary(UnaryKind::Sqrt, ax).unwrap();
    let ny = ctx.unary(UnaryKind::Neg, y).unwrap();
    let n = ctx.binary(BinaryKind::Max, s, ny).unwrap();
    let p = ctx.binary(BinaryKind::Mul, m, n).unwrap();
    let q = ctx.binary(BinaryKind::Add, a2, p).unwrap();
    let r = ctx.binary(BinaryKind::Min, x, tenth).unwrap();
    let root = ctx.binary(BinaryKind::Sub, q, r).unwrap();
    VmData::<3>::new(&ctx, root).unwrap()
}

fn reference(x: f32, y: f32) -> f32 {
    (x - 0.25) * (x - 0.25) + y.min(0.5 - x) * x.abs().sqrt().max(-y) - x.min(0.1)
}

#[test]
fn tape_matches_the_expression() {
    let data = mixed();
    assert_eq!(data.choice_count(), 3);
    for i in 0..21 {
        for j in 0..21 {
            let x = i as f32 / 10.0 - 1.0;
            let y = j as f32 / 10.0 - 1.0;
            let v = value(&data, [x, y, 0.0], &[]);
            assert_eq!(v.to_bits(), reference(x, y).to_bits());
        }
    }
}

#[test]
fn simplified_tape_agrees_where_the_choices_hold() {
    let data = mixed();
    let code = data.iter_asm();
    let mut workspace = VmWorkspace::<3>::default();
    let mut spare = VmData::<3>::default();
    let mut shorter = 0;
    for i in 0..21 {
        for j in 0..21 {
            let p = [i as f32 / 10.0 - 1.0, j as f32 / 10.0 - 1.0, 0.0];
            let choices = point_choices(&code, data.slot_count(), p, &[]);
            assert_eq!(choices.len(), 3);
            let out = match data.simplify(&choices, &mut workspace, spare) {
                Ok(d) => d,
                Err((e, _)) => panic!("simplify failed: {:?}", e),
            };
            assert_eq!(
                value(&out, p, &[]).to_bits(),
                value(&data, p, &[]).to_bits()
            );
            assert!(out.ssa_len() <= data.ssa_len());
            if out.ssa_len() < data.ssa_len() {
                shorter += 1;
            }
            let kept = choices.iter().filter(|c| **c == Choice::Both).count();
            assert_eq!(out.choice_count(), kept);

            // Keeping every choice keeps the function and the count.
            let same = match out.simplify(
                &vec![Choice::Both; out.choice_count()],
                &mut workspace,
                VmData::default(),
            ) {
                Ok(d) => d,
                Err((e, _)) => panic!("simplify failed: {:?}", e),
            };
            assert_eq!(same.choice_count(), out.choice_count());
            assert_eq!(value(&same, p, &[]).to_bits(), value(&out, p, &[]).to_bits());
            spare = out;
        }
    }
    assert!(shorter > 400);
}

struct Rng(u64);

impl Rng {
    fn next(&mut self) -> u64 {
        self.0 ^= self.0 << 13;
        self.0 ^= self.0 >> 7;
        self.0 ^= self.0 << 17;
        self.0
    }

    fn below(&mut self, n: usize) -> usize {
        (self.next() % n as u64) as usize
    }

    fn unit(&mut self) -> f32 {
        (self.below(2001) as f32 - 1000.0) / 500.0
    }
}

/// The value of a node, computed on the graph itself. A constant on the
/// left of an operation whose operands may change places is taken on the
/// right, as the tape has it.
fn graph_value(ctx: &Context, n: Node, p: [f32; 3], vars: &[f32]) -> f32 {
    let constant = |n: Node| matches!(ctx.get_op(n), Some(Op::Const(_)));
    match ctx.get_op(n).unwrap() {
        Op::Input(axis) => p[axis as usize],
        Op::Var(v) => vars[v],
        Op::Const(c) => imm(c),
        Op::Unary(kind, a) => {
            let a = graph_value(ctx, a, p, vars);
            match kind {
                UnaryKind::Neg => -a,
                UnaryKind::Abs => a.abs(),
                UnaryKind::Recip => 1.0 / a,
                UnaryKind::Sqrt => a.sqrt(),
                UnaryKind::Square => a * a,
                UnaryKind::Sin => a.sin(),
                UnaryKind::Cos => a.cos(),
                UnaryKind::Tan => a.tan(),
                UnaryKind::Asin => a.asin(),
                UnaryKind::Acos => a.acos(),
                UnaryKind::Atan => a.atan(),
                UnaryKind::Exp => a.exp(),
                UnaryKind::Ln => a.ln(),
            }
        }
        Op::Binary(kind, a, b) => {
            let (a, b) = if kind.is_commutative() && constant(a) && !constant(b) {
                (b, a)
            } else {
                (a, b)
            };
            let a = graph_value(ctx, a, p, vars);
            let b = graph_value(ctx, b, p, vars);
            match kind {
                BinaryKind::Add => a + b,
                BinaryKind::Sub => a - b,
                BinaryKind::Mul => a * b,
                BinaryKind::Div => a / b,
                BinaryKind::Min => a.min(b),
                BinaryKind::Max => a.max(b),
            }
        }
    }
}

fn random_graph(rng: &mut Rng) -> (Context, Node) {
    let mut ctx = Context::new();
    let mut nodes = vec![ctx.x(), ctx.y(), ctx.z()];
    nodes.push(ctx.var(String::from("p")));
    nodes.push(ctx.var(String::from("q")));
    for _ in 0..3 {
        let c = rng.unit();
        nodes.push(ctx.constant(bits(c)));
    }
    let count = 1 + rng.below(24);
    for _ in 0..count {
        let a = nodes[rng.below(nodes.len())];
        let b = nodes[rng.below(nodes.len())];
        let n = match rng.below(12) {
            0 => ctx.unary(UnaryKind::Neg, a),
            1 => ctx.unary(UnaryKind::Abs, a),
            2 => ctx.unary(UnaryKind::Square, a),
            3 => ctx.unary(UnaryKind::Sin, a),
            4 => ctx.binary(BinaryKind::Add, a, b),
            5 => ctx.binary(BinaryKind::Sub, a, b),
            6 => ctx.binary(BinaryKind::Mul, a, b),
            7 => ctx.binary(BinaryKind::Div, a, b),
            8 | 9 => ctx.binary(BinaryKind::Min, a, b),
            _ => ctx.binary(BinaryKind::Max, a, b),
        };
        nodes.push(n.unwrap());
    }
    let root = *nodes.last().unwrap();
    (ctx, root)
}

fn same(a: f32, b: f32) -> bool {
    a.to_bits() == b.to_bits() || (a.is_nan() && b.is_nan())
}

/// Builds the tape of a graph in `N` registers and compares it, and what
/// simplification makes of it, with the graph at a few points.
fn check_random<const N: usize>(rng: &mut Rng, ctx: &Context, root: Node) -> usize {
    let data = VmData::<N>::new(ctx, root).unwrap();
    let code = data.iter_asm();
    for op in &code {
        if let RegOp::Load(reg, mem) | RegOp::Store(mem, reg) = *op {
            assert!((reg as usize) < N);
            assert!((mem as usize) < data.slot_count());
        }
    }
    let mut workspace = VmWorkspace::<N>::default();
    let mut shorter = 0;
    for _ in 0..4 {
        let p = [rng.unit(), rng.unit(), rng.unit()];
        let named = [rng.unit(), rng.unit()];
        let by_name = |n: &String| if n == "p" { named[0] } else { named[1] };
        let vars: Vec<f32> = data.vars().iter().map(by_name).collect();
        let ctx_vars: Vec<f32> = (0..ctx.var_count()).map(|v| by_name(ctx.var_name(v))).collect();
        let expected = graph_value(ctx, root, p, &ctx_vars);
        assert!(same(eval_point(&code, data.slot_count(), p, &vars, 7.0), expected));

        let choices = point_choices(&code, data.slot_count(), p, &vars);
        assert_eq!(choices.len(), data.choice_count());
        let out = match data.simplify(&choices, &mut workspace, VmData::default()) {
            Ok(d) => d,
            Err((e, _)) => panic!("simplify failed: {:?}", e),
        };
        assert!(out.ssa_len() <= data.ssa_len());
        assert_eq!(out.vars(), data.vars());
        let again = eval_point(&out.iter_asm(), out.slot_count(), p, &vars, -3.0);
        assert!(same(again, expected));
        if out.ssa_len() < data.ssa_len() {
            shorter += 1;
        }
    }
    shorter
}

#[test]
fn random_graphs_keep_their_value() {
    let mut rng = Rng(0x2545F4914F6CDD1D);
    let mut shorter = 0;
    for _ in 0..300 {
        let (ctx, root) = random_graph(&mut rng);
        shorter += check_random::<2>(&mut rng, &ctx, root);
        shorter += check_random::<3>(&mut rng, &ctx, root);
        shorter += check_random::<5>(&mut rng, &ctx, root);
        shorter += check_random::<255>(&mut rng, &ctx, root);
    }
    assert!(shorter > 1000);
}
