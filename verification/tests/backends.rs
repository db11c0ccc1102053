//! The numbers and names that the machine-code and shader backends start
//! from.
use fidget::choice::Choice;
use fidget::frame::{
    frame_bytes, halves, imm_reg, quarters, reg, spill_offset, var_offset, IMM_REG, OFFSET,
    REGISTER_LIMIT, STACK_SIZE,
};
use fidget::metal::{
    initial_choices, push_decimal, Function, Mode, RenderConfig, EVERY_SIDE, TILE_SIZE,
};

#[test]
fn shader_names() {
    assert_eq!(Mode::Pixel.function_prefix(), "f");
    assert_eq!(Mode::Interval.function_prefix(), "i");
    assert_eq!(Mode::Pixel.vars_type(), "const thread float*");
    assert_eq!(Mode::Interval.vars_type(), "const thread float2*");
    assert_eq!(Mode::Pixel.local_type(), "float");
    assert_eq!(Mode::Interval.local_type(), "float2");
    assert_eq!(Mode::Pixel.choice_type(), "const device uint8_t*");
    assert_eq!(Mode::Interval.choice_type(), "device uint8_t*");
    assert_eq!(Choice::Left.to_metal(), Some("LHS"));
    assert_eq!(Choice::Right.to_metal(), Some("RHS"));
    assert_eq!(Choice::Both.to_metal(), Some("BOTH"));
    assert_eq!(Choice::Unknown.to_metal(), None);
}

#[test]
fn render_configuration() {
    let cfg = RenderConfig::new(32, 1, 0);
    assert_eq!(
        cfg,
        RenderConfig {
            image_size: 32,
            tile_size: 8,
            var_index_x: 1,
            var_index_y: 0,
            var_index_z: u32::MAX,
        }
    );
    assert_eq!(TILE_SIZE, 8);
    assert_eq!(cfg.group_count(), 16);
    assert_eq!(
        cfg.tiles(),
        vec![
            0x0_0000, 0x0_0001, 0x0_0002, 0x0_0003, 0x1_0000, 0x1_0001, 0x1_0002, 0x1_0003,
            0x2_0000, 0x2_0001, 0x2_0002, 0x2_0003, 0x3_0000, 0x3_0001, 0x3_0002, 0x3_0003,
        ]
    );
    let mut expected = vec![];
    let big = RenderConfig::new(2048, usize::MAX, 7);
    if usize::MAX > u32::MAX as usize {
        assert_eq!(big.var_index_x, u32::MAX);
    }
    assert_eq!(big.var_index_y, 7);
    for x in 0..256u32 {
        for y in 0..256u32 {
            expected.push((x << 16) | y);
        }
    }
    assert_eq!(big.tiles(), expected);
    assert_eq!(big.group_count(), 65536);
    assert!(RenderConfig::new(0, 0, 0).tiles().is_empty());
    assert_eq!(RenderConfig::default().image_size, 0);
}

#[test]
fn choice_buffer() {
    assert_eq!(EVERY_SIDE, 0b11);
    assert_eq!(initial_choices(4, 3), vec![0b11; 12]);
    assert!(initial_choices(0, 3).is_empty());
    assert!(initial_choices(5, 0).is_empty());
}

#[test]
fn machine_registers() {
    assert_eq!((REGISTER_LIMIT, OFFSET, IMM_REG), (24, 8, 3));
    assert_eq!(reg(0), 8);
    assert_eq!(reg(23), 31);
    assert_eq!(reg(247), 255);
    assert_eq!(reg(248), 0);
    assert_eq!(imm_reg(), 251);
    assert_eq!(reg(imm_reg()), IMM_REG);
}

#[test]
fn frame_offsets() {
    assert_eq!(STACK_SIZE, 0x238);
    assert_eq!(spill_offset(0), Some(0x238));
    assert_eq!(spill_offset(1), Some(0x248));
    // The last slot whose offset a load can name.
    assert_eq!(spill_offset(4060), Some(65528));
    assert_eq!(spill_offset(4061), None);
    assert_eq!(spill_offset(u32::MAX), None);
    assert_eq!(var_offset(0), Some(0));
    assert_eq!(var_offset(4095), Some(16380));
    assert_eq!(var_offset(4096), None);
    assert_eq!(var_offset(u32::MAX), None);
    assert_eq!(frame_bytes(0), Some(0x240));
    assert_eq!(frame_bytes(1), Some(0x250));
    assert_eq!(frame_bytes(2), Some(0x260));
    assert_eq!(frame_bytes(3), Some(0x270));
    assert_eq!(frame_bytes(u32::MAX), None);
}

#[test]
fn immediate_pieces() {
    assert_eq!(halves(0), (0, 0));
    assert_eq!(halves(1.0f32.to_bits()), (0x3f80, 0));
    assert_eq!(halves(0xdead_beef), (0xdead, 0xbeef));
    assert_eq!(quarters(0), (0, 0, 0, 0));
    assert_eq!(quarters(0x0123_4567_89ab_cdef), (0x0123, 0x4567, 0x89ab, 0xcdef));
    assert_eq!(quarters(u64::MAX), (0xffff, 0xffff, 0xffff, 0xffff));
}

#[test]
fn decimal_digits() {
    for n in [0usize, 7, 9, 10, 11, 99, 100, 101, 4096, 65535, 1234567890, usize::MAX] {
        let mut out = String::from("v");
        push_decimal(&mut out, n);
        assert_eq!(out, format!("v{}", n));
    }
}

#[test]
fn function_text() {
    let f = Function {
        index: 12,
        body: String::from("    v3 = f_add(v1, v2);\n"),
        root: false,
        inputs: vec![1, 2],
        outputs: vec![3, 40, 105],
    };
    assert_eq!(f.call(), "t_shape_12(vars, choices, v1, v2, v3, v40, v105);");
    assert_eq!(
        f.declaration(Mode::Pixel),
        "inline void t_shape_12(\n    const thread float* vars, const device uint8_t* choices,\n    \
         const float v1, const float v2,\n    thread float& v3, thread float& v40, thread float& v105\n)"
    );
    assert_eq!(
        f.declaration(Mode::Interval),
        "inline void t_shape_12(\n    const thread float2* vars, device uint8_t* choices,\n    \
         const float2 v1, const float2 v2,\n    thread float2& v3, thread float2& v40, \
         thread float2& v105\n)"
    );
    let root = Function {
        index: 0,
        body: String::new(),
        root: true,
        inputs: vec![],
        outputs: vec![],
    };
    assert_eq!(root.call(), "t_shape_0(vars, choices);");
    assert_eq!(
        root.declaration(Mode::Pixel),
        "inline float t_shape_0(\n    const thread float* vars, const device uint8_t* choices\n)"
    );
    assert_eq!(
        root.declaration(Mode::Interval),
        "inline float2 t_shape_0(\n    const thread float2* vars, device uint8_t* choices\n)"
    );
}
