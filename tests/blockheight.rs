use tegra_swizzle::blockdepth::{block_depth, mip_block_depth};
use tegra_swizzle::{block_height, block_height_mip0, div_round_up, mip_block_height, width_in_gobs, BlockHeight};

#[test]
fn block_heights_mip0_bcn() {
    // This test data is based on nutexb textures in Smash Ultimate.
    // Expected block heights were determined manually.
    assert_eq!(BlockHeight::One, block_height_mip0(36 / 4));
    assert_eq!(BlockHeight::One, block_height_mip0(40 / 4));
    assert_eq!(BlockHeight::Two, block_height_mip0(48 / 4));
    assert_eq!(BlockHeight::Two, block_height_mip0(48 / 4));
    assert_eq!(BlockHeight::Two, block_height_mip0(48 / 4));
    assert_eq!(BlockHeight::Two, block_height_mip0(48 / 4));
    assert_eq!(BlockHeight::Two, block_height_mip0(64 / 4));
    assert_eq!(BlockHeight::Two, block_height_mip0(72 / 4));
    assert_eq!(BlockHeight::Two, block_height_mip0(80 / 4));
    assert_eq!(BlockHeight::Two, block_height_mip0(80 / 4));
    assert_eq!(BlockHeight::Two, block_height_mip0(80 / 4));
    assert_eq!(BlockHeight::Two, block_height_mip0(84 / 4));
    assert_eq!(BlockHeight::Four, block_height_mip0(96 / 4));
    assert_eq!(BlockHeight::Four, block_height_mip0(96 / 4));
    assert_eq!(BlockHeight::Four, block_height_mip0(100 / 4));
    assert_eq!(BlockHeight::Four, block_height_mip0(120 / 4));
    assert_eq!(BlockHeight::Four, block_height_mip0(124 / 4));
    assert_eq!(BlockHeight::Four, block_height_mip0(128 / 4));
    assert_eq!(BlockHeight::Four, block_height_mip0(132 / 4));
    assert_eq!(BlockHeight::Four, block_height_mip0(140 / 4));
    assert_eq!(BlockHeight::Four, block_height_mip0(168 / 4));
    assert_eq!(BlockHeight::Eight, block_height_mip0(176 / 4));
    assert_eq!(BlockHeight::Eight, block_height_mip0(180 / 4));
    assert_eq!(BlockHeight::Eight, block_height_mip0(184 / 4));
    assert_eq!(BlockHeight::Eight, block_height_mip0(192 / 4));
    assert_eq!(BlockHeight::Eight, block_height_mip0(200 / 4));
    assert_eq!(BlockHeight::Eight, block_height_mip0(220 / 4));
    assert_eq!(BlockHeight::Eight, block_height_mip0(256 / 4));
    assert_eq!(BlockHeight::Eight, block_height_mip0(260 / 4));
    assert_eq!(BlockHeight::Eight, block_height_mip0(292 / 4));
    assert_eq!(BlockHeight::Eight, block_height_mip0(300 / 4));
    assert_eq!(BlockHeight::Eight, block_height_mip0(300 / 4));
    assert_eq!(BlockHeight::Eight, block_height_mip0(320 / 4));
    assert_eq!(BlockHeight::Eight, block_height_mip0(320 / 4));
    assert_eq!(BlockHeight::Eight, block_height_mip0(340 / 4));
    assert_eq!(BlockHeight::Sixteen, block_height_mip0(360 / 4));
    assert_eq!(BlockHeight::Sixteen, block_height_mip0(384 / 4));
    assert_eq!(BlockHeight::Sixteen, block_height_mip0(400 / 4));
    assert_eq!(BlockHeight::Sixteen, block_height_mip0(500 / 4));
    assert_eq!(BlockHeight::Sixteen, block_height_mip0(560 / 4));
    assert_eq!(BlockHeight::Sixteen, block_height_mip0(640 / 4));
    assert_eq!(BlockHeight::Sixteen, block_height_mip0(720 / 4));
    assert_eq!(BlockHeight::Sixteen, block_height_mip0(768 / 4));
    assert_eq!(BlockHeight::Sixteen, block_height_mip0(1088 / 4));
    assert_eq!(BlockHeight::Sixteen, block_height_mip0(1152 / 4));
    assert_eq!(BlockHeight::Sixteen, block_height_mip0(1408 / 4));
}

#[test]
fn mip_block_heights_bcn() {
    // This test data is based on nutexb textures in Smash Ultimate.
    // Expected block heights were determined manually.
    // This overlaps with the test above to ensure mip 0 works as expected.
    assert_eq!(
        BlockHeight::One,
        mip_block_height(div_round_up(36, 4), block_height_mip0(div_round_up(36, 4)))
    );
    assert_eq!(
        BlockHeight::One,
        mip_block_height(div_round_up(40, 4), block_height_mip0(div_round_up(40, 4)))
    );
    assert_eq!(
        BlockHeight::Two,
        mip_block_height(div_round_up(48, 4), block_height_mip0(div_round_up(48, 4)))
    );
    assert_eq!(
        BlockHeight::Two,
        mip_block_height(div_round_up(48, 4), block_height_mip0(div_round_up(48, 4)))
    );
    assert_eq!(
        BlockHeight::Two,
        mip_block_height(div_round_up(48, 4), block_height_mip0(div_round_up(48, 4)))
    );
    assert_eq!(
        BlockHeight::Two,
        mip_block_height(div_round_up(48, 4), block_height_mip0(div_round_up(48, 4)))
    );
    assert_eq!(
        BlockHeight::Two,
        mip_block_height(div_round_up(64, 4), block_height_mip0(div_round_up(64, 4)))
    );
    assert_eq!(
        BlockHeight::Two,
        mip_block_height(div_round_up(72, 4), block_height_mip0(div_round_up(72, 4)))
    );
    assert_eq!(
        BlockHeight::Two,
        mip_block_height(div_round_up(80, 4), block_height_mip0(div_round_up(80, 4)))
    );
    assert_eq!(
        BlockHeight::Two,
        mip_block_height(div_round_up(80, 4), block_height_mip0(div_round_up(80, 4)))
    );
    assert_eq!(
        BlockHeight::Two,
        mip_block_height(div_round_up(80, 4), block_height_mip0(div_round_up(80, 4)))
    );
    assert_eq!(
        BlockHeight::Two,
        mip_block_height(div_round_up(84, 4), block_height_mip0(div_round_up(84, 4)))
    );
    assert_eq!(
        BlockHeight::Four,
        mip_block_height(div_round_up(96, 4), block_height_mip0(div_round_up(96, 4)))
    );
    assert_eq!(
        BlockHeight::Four,
        mip_block_height(div_round_up(96, 4), block_height_mip0(div_round_up(96, 4)))
    );
    assert_eq!(
        BlockHeight::Four,
        mip_block_height(
            div_round_up(100, 4),
            block_height_mip0(div_round_up(100, 4))
        )
    );
    assert_eq!(
        BlockHeight::Four,
        mip_block_height(
            div_round_up(120, 4),
            block_height_mip0(div_round_up(120, 4))
        )
    );
    assert_eq!(
        BlockHeight::Four,
        mip_block_height(
            div_round_up(124, 4),
            block_height_mip0(div_round_up(124, 4))
        )
    );
    assert_eq!(
        BlockHeight::Four,
        mip_block_height(
            div_round_up(128, 4),
            block_height_mip0(div_round_up(128, 4))
        )
    );
    assert_eq!(
        BlockHeight::Four,
        mip_block_height(
            div_round_up(132, 4),
            block_height_mip0(div_round_up(132, 4))
        )
    );
    assert_eq!(
        BlockHeight::Four,
        mip_block_height(
            div_round_up(140, 4),
            block_height_mip0(div_round_up(140, 4))
        )
    );
    assert_eq!(
        BlockHeight::Four,
        mip_block_height(
            div_round_up(168, 4),
            block_height_mip0(div_round_up(168, 4))
        )
    );
    assert_eq!(
        BlockHeight::Eight,
        mip_block_height(
            div_round_up(176, 4),
            block_height_mip0(div_round_up(176, 4))
        )
    );
    assert_eq!(
        BlockHeight::Eight,
        mip_block_height(
            div_round_up(180, 4),
            block_height_mip0(div_round_up(180, 4))
        )
    );
    assert_eq!(
        BlockHeight::Eight,
        mip_block_height(
            div_round_up(184, 4),
            block_height_mip0(div_round_up(184, 4))
        )
    );
    assert_eq!(
        BlockHeight::Eight,
        mip_block_height(
            div_round_up(192, 4),
            block_height_mip0(div_round_up(192, 4))
        )
    );
    assert_eq!(
        BlockHeight::Eight,
        mip_block_height(
            div_round_up(200, 4),
            block_height_mip0(div_round_up(200, 4))
        )
    );
    assert_eq!(
        BlockHeight::Eight,
        mip_block_height(
            div_round_up(220, 4),
            block_height_mip0(div_round_up(220, 4))
        )
    );
    assert_eq!(
        BlockHeight::Eight,
        mip_block_height(
            div_round_up(256, 4),
            block_height_mip0(div_round_up(256, 4))
        )
    );
    assert_eq!(
        BlockHeight::Eight,
        mip_block_height(
            div_round_up(260, 4),
            block_height_mip0(div_round_up(260, 4))
        )
    );
    assert_eq!(
        BlockHeight::Eight,
        mip_block_height(
            div_round_up(292, 4),
            block_height_mip0(div_round_up(292, 4))
        )
    );
    assert_eq!(
        BlockHeight::Eight,
        mip_block_height(
            div_round_up(300, 4),
            block_height_mip0(div_round_up(300, 4))
        )
    );
    assert_eq!(
        BlockHeight::Eight,
        mip_block_height(
            div_round_up(300, 4),
            block_height_mip0(div_round_up(300, 4))
        )
    );
    assert_eq!(
        BlockHeight::Eight,
        mip_block_height(
            div_round_up(320, 4),
            block_height_mip0(div_round_up(320, 4))
        )
    );
    assert_eq!(
        BlockHeight::Eight,
        mip_block_height(
            div_round_up(320, 4),
            block_height_mip0(div_round_up(320, 4))
        )
    );
    assert_eq!(
        BlockHeight::Eight,
        mip_block_height(
            div_round_up(340, 4),
            block_height_mip0(div_round_up(340, 4))
        )
    );
    assert_eq!(
        BlockHeight::Sixteen,
        mip_block_height(
            div_round_up(360, 4),
            block_height_mip0(div_round_up(360, 4))
        )
    );
    assert_eq!(
        BlockHeight::Sixteen,
        mip_block_height(
            div_round_up(384, 4),
            block_height_mip0(div_round_up(384, 4))
        )
    );
    assert_eq!(
        BlockHeight::Sixteen,
        mip_block_height(
            div_round_up(400, 4),
            block_height_mip0(div_round_up(400, 4))
        )
    );
    assert_eq!(
        BlockHeight::Sixteen,
        mip_block_height(
            div_round_up(500, 4),
            block_height_mip0(div_round_up(500, 4))
        )
    );
    assert_eq!(
        BlockHeight::Sixteen,
        mip_block_height(
            div_round_up(560, 4),
            block_height_mip0(div_round_up(560, 4))
        )
    );
    assert_eq!(
        BlockHeight::Sixteen,
        mip_block_height(
            div_round_up(640, 4),
            block_height_mip0(div_round_up(640, 4))
        )
    );
    assert_eq!(
        BlockHeight::Sixteen,
        mip_block_height(
            div_round_up(720, 4),
            block_height_mip0(div_round_up(720, 4))
        )
    );
    assert_eq!(
        BlockHeight::Sixteen,
        mip_block_height(
            div_round_up(768, 4),
            block_height_mip0(div_round_up(768, 4))
        )
    );
    assert_eq!(
        BlockHeight::Sixteen,
        mip_block_height(
            div_round_up(1088, 4),
            block_height_mip0(div_round_up(1088, 4))
        )
    );
    assert_eq!(
        BlockHeight::Sixteen,
        mip_block_height(
            div_round_up(1152, 4),
            block_height_mip0(div_round_up(1152, 4))
        )
    );
    assert_eq!(
        BlockHeight::Sixteen,
        mip_block_height(
            div_round_up(1408, 4),
            block_height_mip0(div_round_up(1408, 4))
        )
    );
    assert_eq!(
        BlockHeight::One,
        mip_block_height(div_round_up(24, 4), block_height_mip0(div_round_up(48, 4)))
    );
    assert_eq!(
        BlockHeight::One,
        mip_block_height(div_round_up(24, 4), block_height_mip0(div_round_up(48, 4)))
    );
    assert_eq!(
        BlockHeight::One,
        mip_block_height(div_round_up(24, 4), block_height_mip0(div_round_up(48, 4)))
    );
    assert_eq!(
        BlockHeight::One,
        mip_block_height(div_round_up(24, 4), block_height_mip0(div_round_up(48, 4)))
    );
    assert_eq!(
        BlockHeight::One,
        mip_block_height(div_round_up(32, 4), block_height_mip0(div_round_up(64, 4)))
    );
    assert_eq!(
        BlockHeight::Two,
        mip_block_height(div_round_up(36, 4), block_height_mip0(div_round_up(72, 4)))
    );
    assert_eq!(
        BlockHeight::Two,
        mip_block_height(div_round_up(40, 4), block_height_mip0(div_round_up(80, 4)))
    );
    assert_eq!(
        BlockHeight::Two,
        mip_block_height(div_round_up(40, 4), block_height_mip0(div_round_up(80, 4)))
    );
    assert_eq!(
        BlockHeight::Two,
        mip_block_height(div_round_up(42, 4), block_height_mip0(div_round_up(84, 4)))
    );
    assert_eq!(
        BlockHeight::Two,
        mip_block_height(div_round_up(48, 4), block_height_mip0(div_round_up(96, 4)))
    );
    assert_eq!(
        BlockHeight::Two,
        mip_block_height(div_round_up(50, 4), block_height_mip0(div_round_up(100, 4)))
    );
    assert_eq!(
        BlockHeight::Two,
        mip_block_height(div_round_up(64, 4), block_height_mip0(div_round_up(128, 4)))
    );
    assert_eq!(
        BlockHeight::Four,
        mip_block_height(div_round_up(70, 4), block_height_mip0(div_round_up(140, 4)))
    );
    assert_eq!(
        BlockHeight::Four,
        mip_block_height(div_round_up(84, 4), block_height_mip0(div_round_up(168, 4)))
    );
    assert_eq!(
        BlockHeight::Four,
        mip_block_height(div_round_up(90, 4), block_height_mip0(div_round_up(180, 4)))
    );
    assert_eq!(
        BlockHeight::Four,
        mip_block_height(div_round_up(92, 4), block_height_mip0(div_round_up(184, 4)))
    );
    assert_eq!(
        BlockHeight::Four,
        mip_block_height(div_round_up(96, 4), block_height_mip0(div_round_up(192, 4)))
    );
    assert_eq!(
        BlockHeight::Four,
        mip_block_height(
            div_round_up(100, 4),
            block_height_mip0(div_round_up(200, 4))
        )
    );
    assert_eq!(
        BlockHeight::Four,
        mip_block_height(
            div_round_up(110, 4),
            block_height_mip0(div_round_up(220, 4))
        )
    );
    assert_eq!(
        BlockHeight::Four,
        mip_block_height(
            div_round_up(128, 4),
            block_height_mip0(div_round_up(256, 4))
        )
    );
    assert_eq!(
        BlockHeight::Eight,
        mip_block_height(
            div_round_up(130, 4),
            block_height_mip0(div_round_up(260, 4))
        )
    );
    assert_eq!(
        BlockHeight::Eight,
        mip_block_height(
            div_round_up(150, 4),
            block_height_mip0(div_round_up(300, 4))
        )
    );
    assert_eq!(
        BlockHeight::Eight,
        mip_block_height(
            div_round_up(160, 4),
            block_height_mip0(div_round_up(320, 4))
        )
    );
    assert_eq!(
        BlockHeight::Eight,
        mip_block_height(
            div_round_up(160, 4),
            block_height_mip0(div_round_up(320, 4))
        )
    );
    assert_eq!(
        BlockHeight::Eight,
        mip_block_height(
            div_round_up(180, 4),
            block_height_mip0(div_round_up(360, 4))
        )
    );
    assert_eq!(
        BlockHeight::Eight,
        mip_block_height(
            div_round_up(192, 4),
            block_height_mip0(div_round_up(384, 4))
        )
    );
    assert_eq!(
        BlockHeight::Eight,
        mip_block_height(
            div_round_up(200, 4),
            block_height_mip0(div_round_up(400, 4))
        )
    );
    assert_eq!(
        BlockHeight::Eight,
        mip_block_height(
            div_round_up(250, 4),
            block_height_mip0(div_round_up(500, 4))
        )
    );
    assert_eq!(
        BlockHeight::Sixteen,
        mip_block_height(
            div_round_up(280, 4),
            block_height_mip0(div_round_up(560, 4))
        )
    );
    assert_eq!(
        BlockHeight::Sixteen,
        mip_block_height(
            div_round_up(320, 4),
            block_height_mip0(div_round_up(640, 4))
        )
    );
    assert_eq!(
        BlockHeight::Sixteen,
        mip_block_height(
            div_round_up(360, 4),
            block_height_mip0(div_round_up(720, 4))
        )
    );
    assert_eq!(
        BlockHeight::Sixteen,
        mip_block_height(
            div_round_up(384, 4),
            block_height_mip0(div_round_up(768, 4))
        )
    );
    assert_eq!(
        BlockHeight::Sixteen,
        mip_block_height(
            div_round_up(544, 4),
            block_height_mip0(div_round_up(1088, 4))
        )
    );
    assert_eq!(
        BlockHeight::Sixteen,
        mip_block_height(
            div_round_up(576, 4),
            block_height_mip0(div_round_up(1152, 4))
        )
    );
    assert_eq!(
        BlockHeight::Sixteen,
        mip_block_height(
            div_round_up(704, 4),
            block_height_mip0(div_round_up(1408, 4))
        )
    );
    assert_eq!(
        BlockHeight::One,
        mip_block_height(div_round_up(25, 4), block_height_mip0(div_round_up(100, 4)))
    );
    assert_eq!(
        BlockHeight::Two,
        mip_block_height(div_round_up(35, 4), block_height_mip0(div_round_up(140, 4)))
    );
    assert_eq!(
        BlockHeight::Four,
        mip_block_height(div_round_up(75, 4), block_height_mip0(div_round_up(300, 4)))
    );
    assert_eq!(
        BlockHeight::Four,
        mip_block_height(div_round_up(80, 4), block_height_mip0(div_round_up(320, 4)))
    );
    assert_eq!(
        BlockHeight::Four,
        mip_block_height(div_round_up(90, 4), block_height_mip0(div_round_up(360, 4)))
    );
    assert_eq!(
        BlockHeight::Eight,
        mip_block_height(
            div_round_up(140, 4),
            block_height_mip0(div_round_up(560, 4))
        )
    );
    assert_eq!(
        BlockHeight::Eight,
        mip_block_height(
            div_round_up(160, 4),
            block_height_mip0(div_round_up(640, 4))
        )
    );
    assert_eq!(
        BlockHeight::Eight,
        mip_block_height(
            div_round_up(180, 4),
            block_height_mip0(div_round_up(720, 4))
        )
    );
    assert_eq!(
        BlockHeight::Eight,
        mip_block_height(
            div_round_up(192, 4),
            block_height_mip0(div_round_up(768, 4))
        )
    );
    assert_eq!(
        BlockHeight::Sixteen,
        mip_block_height(
            div_round_up(272, 4),
            block_height_mip0(div_round_up(1088, 4))
        )
    );
    assert_eq!(
        BlockHeight::Sixteen,
        mip_block_height(
            div_round_up(288, 4),
            block_height_mip0(div_round_up(1152, 4))
        )
    );
    assert_eq!(
        BlockHeight::Sixteen,
        mip_block_height(
            div_round_up(352, 4),
            block_height_mip0(div_round_up(1408, 4))
        )
    );
    assert_eq!(
        BlockHeight::One,
        mip_block_height(div_round_up(12, 4), block_height_mip0(div_round_up(100, 4)))
    );
    assert_eq!(
        BlockHeight::One,
        mip_block_height(div_round_up(17, 4), block_height_mip0(div_round_up(140, 4)))
    );
    assert_eq!(
        BlockHeight::Two,
        mip_block_height(div_round_up(37, 4), block_height_mip0(div_round_up(300, 4)))
    );
    assert_eq!(
        BlockHeight::Two,
        mip_block_height(div_round_up(40, 4), block_height_mip0(div_round_up(320, 4)))
    );
    assert_eq!(
        BlockHeight::Two,
        mip_block_height(div_round_up(45, 4), block_height_mip0(div_round_up(360, 4)))
    );
    assert_eq!(
        BlockHeight::Four,
        mip_block_height(div_round_up(70, 4), block_height_mip0(div_round_up(560, 4)))
    );
    assert_eq!(
        BlockHeight::Four,
        mip_block_height(div_round_up(80, 4), block_height_mip0(div_round_up(640, 4)))
    );
    assert_eq!(
        BlockHeight::Four,
        mip_block_height(div_round_up(90, 4), block_height_mip0(div_round_up(720, 4)))
    );
    assert_eq!(
        BlockHeight::Four,
        mip_block_height(div_round_up(96, 4), block_height_mip0(div_round_up(768, 4)))
    );
    assert_eq!(
        BlockHeight::Eight,
        mip_block_height(
            div_round_up(136, 4),
            block_height_mip0(div_round_up(1088, 4))
        )
    );
    assert_eq!(
        BlockHeight::Eight,
        mip_block_height(
            div_round_up(144, 4),
            block_height_mip0(div_round_up(1152, 4))
        )
    );
    assert_eq!(
        BlockHeight::Eight,
        mip_block_height(
            div_round_up(176, 4),
            block_height_mip0(div_round_up(1408, 4))
        )
    );
    assert_eq!(
        BlockHeight::One,
        mip_block_height(div_round_up(18, 4), block_height_mip0(div_round_up(300, 4)))
    );
    assert_eq!(
        BlockHeight::One,
        mip_block_height(div_round_up(20, 4), block_height_mip0(div_round_up(320, 4)))
    );
    assert_eq!(
        BlockHeight::One,
        mip_block_height(div_round_up(22, 4), block_height_mip0(div_round_up(360, 4)))
    );
    assert_eq!(
        BlockHeight::Two,
        mip_block_height(div_round_up(35, 4), block_height_mip0(div_round_up(560, 4)))
    );
    assert_eq!(
        BlockHeight::Two,
        mip_block_height(div_round_up(40, 4), block_height_mip0(div_round_up(640, 4)))
    );
    assert_eq!(
        BlockHeight::Two,
        mip_block_height(div_round_up(45, 4), block_height_mip0(div_round_up(720, 4)))
    );
    assert_eq!(
        BlockHeight::Two,
        mip_block_height(div_round_up(48, 4), block_height_mip0(div_round_up(768, 4)))
    );
    assert_eq!(
        BlockHeight::Four,
        mip_block_height(
            div_round_up(68, 4),
            block_height_mip0(div_round_up(1088, 4))
        )
    );
    assert_eq!(
        BlockHeight::Four,
        mip_block_height(
            div_round_up(72, 4),
            block_height_mip0(div_round_up(1152, 4))
        )
    );
    assert_eq!(
        BlockHeight::Four,
        mip_block_height(
            div_round_up(88, 4),
            block_height_mip0(div_round_up(1408, 4))
        )
    );
    assert_eq!(
        BlockHeight::One,
        mip_block_height(div_round_up(20, 4), block_height_mip0(div_round_up(640, 4)))
    );
}

#[test]
fn block_heights() {
    assert_eq!(BlockHeight::Eight, block_height(64));

    assert_eq!(BlockHeight::Sixteen, block_height(320 / 4));

    // BCN Tiles.
    assert_eq!(BlockHeight::Sixteen, block_height(768 / 4));
    assert_eq!(BlockHeight::Sixteen, block_height(384 / 4));
    assert_eq!(BlockHeight::Sixteen, block_height(384 / 4));
    assert_eq!(BlockHeight::Four, block_height(80 / 4));
}

#[test]
fn mip_block_height_bcn() {
    assert_eq!(4, mip_block_height(128 / 4, block_height_mip0(128 / 4)).value());
}

#[test]
fn base_block_depths() {
    assert_eq!(16, block_depth(16));
    assert_eq!(16, block_depth(33));
}

#[test]
fn mip_block_depths() {
    assert_eq!(8, mip_block_depth(16 / 2, 16));
    assert_eq!(16, mip_block_depth(33 / 2, 16));
}

#[test]
fn lib_width_in_gobs_block16() {
    assert_eq!(20, width_in_gobs(320 / 4, 16));
}

#[test]
fn block_height_new_accepts_supported_values() {
    assert_eq!(Some(BlockHeight::Eight), BlockHeight::new(8));
    assert_eq!(Some(BlockHeight::ThirtyTwo), BlockHeight::new(32));
    assert_eq!(None, BlockHeight::new(5));
    assert_eq!(None, BlockHeight::new(0));
}

#[test]
fn div_round_up_rounds_up() {
    assert_eq!(2, div_round_up(8, 4));
    assert_eq!(3, div_round_up(10, 4));
    assert_eq!(10, div_round_up(10, 1));
    assert_eq!(1073741824, div_round_up(u32::MAX, 4));
}

#[test]
fn mip_block_height_never_grows() {
    for value in [1usize, 2, 4, 8, 16, 32] {
        let base = BlockHeight::new(value).unwrap();
        for mip_height in [0u32, 1, 7, 8, 9, 64, 1000, u32::MAX] {
            assert!(mip_block_height(mip_height, base).value() as usize <= value);
        }
    }
    assert_eq!(BlockHeight::ThirtyTwo, mip_block_height(1000, BlockHeight::ThirtyTwo));
    assert_eq!(BlockHeight::One, mip_block_height(1, BlockHeight::ThirtyTwo));
}

#[test]
fn block_height_mip0_of_large_heights() {
    assert_eq!(BlockHeight::Sixteen, block_height_mip0(u32::MAX));
    assert_eq!(BlockHeight::One, block_height_mip0(0));
    assert_eq!(BlockHeight::One, block_height_mip0(10));
    assert_eq!(BlockHeight::Two, block_height_mip0(11));
}

#[test]
fn width_in_gobs_block16() {
    assert_eq!(20, width_in_gobs(320 / 4, 16));
}
