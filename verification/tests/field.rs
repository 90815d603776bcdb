//! The grass, the drawings and the sounds.

use army_ghosts::grass::{
    band_middle, field_points, field_triangles, look_of, scatter, tuft_bands, tuft_sites, units,
    Clump, Ground, Stone, ARENA_HALF_H, ARENA_HALF_W, BANDS,
};
use army_ghosts::mesh::{quads, Triangles};
use army_ghosts::render::{
    bush_grain, bush_look, line_place, rock_look, sheet_index, shooter_level, signal_game_ready,
    stance_index, BushLook, Gait, Posture, RockLook, CYCLE_FRAMES, IDLE_FRAME, RUN_START,
};
use army_ghosts::sound::{Gun, Heard};
use army_ghosts::strip::measure_row;
use army_ghosts::{STANCE_CROUCH, STANCE_PRONE, STANCE_STAND};

fn scattered(x: i32, y: i32, salt: u32) -> u32 {
    let mut h = (x as u32).wrapping_mul(0x27D4_EB2D) ^ (y as u32).wrapping_mul(0x1656_67B1) ^ salt;
    h ^= h >> 15;
    h = h.wrapping_mul(0x2545_F491);
    h ^ (h >> 13)
}

#[test]
fn the_scatter_is_the_same_everywhere() {
    for (x, y, salt) in [(0, 0, 0), (1, 0, 0), (-400, -300, 0x51DE), (399, -1, 7), (i32::MIN, i32::MAX, u32::MAX)] {
        assert_eq!(scatter(x, y, salt), scattered(x, y, salt), "at {x}, {y}");
    }
    assert_eq!(scatter(0, 0, 0), 0);
}

#[test]
fn clumps_are_tried_all_over_the_arena() {
    let sites = tuft_sites();
    let mut expected = Vec::new();
    let mut y = -ARENA_HALF_H;
    while y <= ARENA_HALF_H {
        let mut x = -ARENA_HALF_W;
        while x <= ARENA_HALF_W {
            let noise = scattered(x, y, 0x51DE);
            let jx = x + (noise % 4) as i32 - 2;
            let jy = y + (noise / 64 % 4) as i32 - 2;
            if jx.abs() <= ARENA_HALF_W && jy.abs() <= ARENA_HALF_H {
                expected.push(Clump { x: jx, y: jy, noise });
            }
            x += 4;
        }
        y += 4;
    }
    assert_eq!(sites, expected);
}

#[test]
fn clumps_grow_in_bands_clear_of_rocks() {
    let clump = |x, y, thick: u32| Clump { x, y, noise: thick << 16 };
    let tried = vec![
        clump(5, 299, 10),
        clump(-5, 299, 10),
        clump(0, 300, 10),
        clump(0, -300, 10),
        clump(0, 0, 255),
        clump(50, 50, 10),
        clump(7, 7, 10),
    ];
    let good = Ground { depth: 6, density: 204 };
    let mut ground = vec![good; tried.len()];
    ground[6] = Ground { depth: 5, density: 255 };
    let stones = vec![Stone { x: 52, y: 50, r: 5 }];
    let bands = tuft_bands(&tried, &ground, &stones);
    assert_eq!(bands.len(), BANDS);
    let spots: Vec<(i32, i32)> = bands[0].iter().map(|c| (c.x, c.y)).collect();
    assert_eq!(spots, vec![(0, 300), (-5, 299), (5, 299)], "far side first, and left first");
    assert_eq!(bands[BANDS - 1], vec![tried[3]]);
    let total: usize = bands.iter().map(Vec::len).sum();
    assert_eq!(total, 4, "too thin, in a rock and too shallow do not grow");
    let clear = tuft_bands(&tried, &ground, &vec![Stone { x: 52, y: 50, r: 4 }]);
    assert_eq!(clear.iter().map(Vec::len).sum::<usize>(), 5, "at the very edge it does");
    assert_eq!((band_middle(0), band_middle(149)), (298, -298));
}

#[test]
fn a_clumps_look_comes_from_its_noise() {
    let look = look_of(0xFFFF_FFFF);
    assert_eq!(look.percent, 90 + 0xFFFF_FFFF / 4096 % 21);
    assert_eq!(look.variant, 0xFFFF_FFFF / 128 % 12);
    assert!(!look.mirrored);
    assert_eq!(look.grain, 1023);
    let plain = look_of(0);
    assert_eq!((plain.percent, plain.variant, plain.mirrored, plain.grain), (90, 0, true, 0));
}

#[test]
fn the_field_is_a_grid() {
    let points = field_points();
    assert_eq!(points.len(), 41 * 31);
    assert_eq!((points[0], points[1], points[41]), ((-400, -300), (-380, -300), (-400, -280)));
    assert_eq!(points[41 * 31 - 1], (400, 300));
    let mesh = field_triangles();
    assert_eq!(mesh.vertices as usize, points.len());
    assert_eq!(mesh.indices.len(), 40 * 30 * 6);
    assert_eq!(mesh.indices[..6], [0, 1, 42, 0, 42, 41]);
    assert_eq!(mesh.indices[6..12], [1, 2, 43, 1, 43, 42]);
    assert_eq!(mesh.indices[40 * 6], 41);
    assert!(mesh.indices.iter().all(|i| (*i as usize) < points.len()));
}

#[test]
fn triangles_stay_within_their_vertices() {
    let mut mesh = Triangles::new();
    assert!(!mesh.drawn());
    mesh.tri();
    mesh.quad();
    assert_eq!(mesh.indices, vec![0, 1, 2, 3, 4, 5, 3, 5, 6]);
    assert_eq!(mesh.vertices, 7);
    assert!(mesh.drawn());
    assert_eq!(quads(2).indices, vec![0, 1, 2, 0, 2, 3, 4, 5, 6, 4, 6, 7]);
}

#[test]
fn positions_round_towards_the_middle() {
    assert_eq!(units(2047, -2047, 1024), (1, -1));
    assert_eq!(units(-1023, i32::MIN, 1024), (0, -2097152));
}

#[test]
fn a_row_is_measured() {
    assert_eq!(measure_row(&vec![]), (0, 0));
    assert_eq!(measure_row(&vec![0, 0, 3, 4, 0, 5, 0]), (3, 2));
    assert_eq!(measure_row(&vec![1, 0, 0, 0]), (1, 3));
    assert_eq!(measure_row(&vec![1, 1]), (2, 0));
    let wall: Vec<i32> = (-48..=48).map(|x: i32| if x.abs() <= 16 { 32 } else { 0 }).collect();
    assert_eq!(measure_row(&wall), (33, 32));
}

#[test]
fn drawings_are_picked_by_seed() {
    let seed = 4 * 725 + 3;
    assert_eq!(rock_look(seed), RockLook { variant: 3, degrees: 5, shade: seed / 1024 % 64 });
    assert_eq!(bush_look(7), BushLook { variant: 1, mirrored: true, shade: 0 });
    assert_eq!(bush_look(32 * 1024 + 12), BushLook {
        variant: (32 * 1024 + 12) % 6,
        mirrored: (32 * 1024 + 12) / 6 % 2 == 1,
        shade: 0
    });
    assert_eq!((stance_index(0), stance_index(2), stance_index(9)), (0, 2, 2));
    assert_eq!(sheet_index(15, 9, 12), 15 * 39 + 26 + 12);
    let pawns = vec![Posture { handle: 3, level: 2 }, Posture { handle: 3, level: 1 }];
    assert_eq!((shooter_level(3, &pawns), shooter_level(4, &pawns)), (2, 0));
    assert_eq!((line_place(0), line_place(7)), (0, 3));
    let mut frames = 0;
    let ready: Vec<bool> = (0..14).map(|_| signal_game_ready(&mut frames)).collect();
    assert_eq!(ready.iter().position(|r| *r), Some(9));
    assert_eq!(ready.iter().filter(|r| **r).count(), 1);
    assert_eq!(frames, 11);
}

#[test]
fn every_bush_gets_a_grain_and_they_are_not_all_the_same() {
    const BUSH_GRAIN: f32 = 0.55;
    let grain_of = |seed: u32| (bush_grain(seed) as f32 / 1024.0 - 0.5) * 2.0 * BUSH_GRAIN;
    let grains: Vec<f32> = (0u32..64).map(|s| grain_of(s.wrapping_mul(0x9E37_79B9))).collect();
    for &grain in &grains {
        assert!(grain.abs() <= BUSH_GRAIN, "bush grain {grain} is out of range");
    }
    let spread = grains.iter().cloned().fold(f32::MIN, f32::max)
        - grains.iter().cloned().fold(f32::MAX, f32::min);
    assert!(spread > BUSH_GRAIN, "every bush nods together: spread {spread}");
}

#[test]
fn a_shot_is_heard_once_however_often_its_frame_is_played() {
    let mut heard = Heard::default();
    let guns = |cooldown: i32| {
        vec![
            Gun { handle: 0, cooldown: 5 },
            Gun { handle: 1, cooldown },
            Gun { handle: 2, cooldown: 0 },
        ]
    };
    assert_eq!(heard.hear_gunfire(0, 100, &guns(12)), vec![1], "not our own, and not the silent");
    assert!(heard.hear_gunfire(0, 100, &guns(12)).is_empty());
    assert!(heard.hear_gunfire(0, 105, &guns(7)).is_empty(), "the same shot, five ticks on");
    assert_eq!(heard.hear_gunfire(0, 112, &guns(12)), vec![1], "the next of the burst");
}

#[test]
fn the_dice_are_the_usual_ones() {
    let mut heard = Heard::default();
    let mut rng: u32 = 0x5EED_1234;
    let mut next = || {
        rng = rng.wrapping_mul(1_664_525).wrapping_add(1_013_904_223);
        rng >> 8
    };
    assert_eq!(heard.unit(), next());
    let dice = heard.throw(true);
    assert_eq!(dice.walk, Some((next(), next(), next())));
    assert_eq!(dice.grain, next());
    let dice = heard.throw(false);
    assert_eq!((dice.walk, dice.grain), (None, next()));
}

const IDLE_BELOW: f32 = 6.0;
const RUN_ABOVE: f32 = 78.0;
const RUN_BELOW: f32 = 70.0;
const CYCLE_LEN_PX: f32 = 36.0;
const PACE_WINDOW: f32 = 0.1;
const STILL_ENOUGH: f32 = 0.05;

/// The pace behind the gait, as the renderer measures it.
#[derive(Default)]
struct WalkAnim {
    phase: f32,
    walked: f32,
    since: f32,
    still: f32,
    pace: f32,
    gait: Gait,
}

impl WalkAnim {
    fn advance(&mut self, moved: f32, dt: f32, level: u8) -> usize {
        self.walked += moved;
        self.since += dt;
        self.still = if moved > 0.0 { 0.0 } else { self.still + dt };
        if self.since >= PACE_WINDOW {
            self.pace = self.walked / self.since;
            self.walked = 0.0;
            self.since = 0.0;
        }
        let moving = self.still < STILL_ENOUGH
            && (self.pace >= IDLE_BELOW || self.walked >= IDLE_BELOW * PACE_WINDOW);
        self.phase = if moving { (self.phase + moved / CYCLE_LEN_PX).fract() } else { 0.0 };
        let beat = (self.phase * CYCLE_FRAMES as f32) as usize;
        self.gait.advance(moving, level, self.pace > RUN_ABOVE, self.pace > RUN_BELOW, beat)
    }
}

fn frame(anim: &mut WalkAnim, pace: f32, fps: f32) -> usize {
    let dt = 1.0 / fps;
    anim.advance(pace * dt, dt, STANCE_STAND)
}

fn block(column: usize) -> u8 {
    match column {
        IDLE_FRAME => 0,
        c if c < RUN_START => 1,
        _ => 2,
    }
}

fn blocks(pace: f32, fps: f32, seconds: f32) -> Vec<u8> {
    let mut anim = WalkAnim::default();
    let frames = (seconds * fps) as usize;
    (0..frames).map(|_| block(frame(&mut anim, pace, fps))).collect()
}

#[test]
fn sweeping_through_the_run_threshold_changes_posture_once_each_way() {
    let mut anim = WalkAnim::default();
    let mut seen = Vec::new();
    for _ in 0..12 {
        frame(&mut anim, 60.0, 60.0);
    }
    for i in 0..360 {
        let t = (i as f32 / 180.0 - 1.0).abs();
        let ripple = 4.0 * (i as f32 * 0.7).sin();
        seen.push(block(frame(&mut anim, 120.0 - 60.0 * t + ripple, 60.0)));
    }
    let changes = seen.windows(2).filter(|w| w[0] != w[1]).count();
    assert_eq!(
        changes, 2,
        "posture changed {changes} times crossing the threshold twice: {seen:?}"
    );
}

#[test]
fn a_gait_changes_only_past_a_mark() {
    let mut gait = Gait::default();
    for beat in 0..9 {
        let column = gait.advance(true, 0, false, true, beat);
        assert_eq!(column, 1 + beat.min(5), "a walk stays a walk inside the band");
    }
    assert_eq!(gait.advance(true, 0, true, true, 0), RUN_START);
    for beat in 0..9 {
        let column = gait.advance(true, 0, false, true, beat);
        assert_eq!(column, RUN_START + beat.min(5), "a run stays a run inside the band");
    }
    assert_eq!(gait.advance(true, 1, true, true, 0), 1, "nobody runs crouching");
    assert_eq!(gait.advance(false, 0, true, true, 3), IDLE_FRAME);
}

#[test]
fn a_rock_far_off_is_in_nobodys_way() {
    let tried = vec![Clump { x: 50, y: 50, noise: 0 }];
    let ground = vec![Ground { depth: 30, density: 255 }];
    let far = vec![Stone { x: -2_147_483_000, y: 2_147_483_000, r: 5 }];
    assert_eq!(tuft_bands(&tried, &ground, &far).iter().map(Vec::len).sum::<usize>(), 1);
}

#[test]
fn a_pace_inside_the_band_holds_whichever_posture_it_arrived_on() {
    let mid = (RUN_ABOVE + RUN_BELOW) / 2.0;
    let mut walking = WalkAnim::default();
    let mut running = WalkAnim::default();
    for _ in 0..60 {
        frame(&mut walking, RUN_BELOW - 10.0, 60.0);
        frame(&mut running, 120.0, 60.0);
    }
    assert_eq!(block(frame(&mut walking, mid, 60.0)), 1);
    assert_eq!(block(frame(&mut running, mid, 60.0)), 2);
    for _ in 0..120 {
        assert_eq!(block(frame(&mut walking, mid, 60.0)), 1, "walk broke into a run");
        assert_eq!(block(frame(&mut running, mid, 60.0)), 2, "run dropped to a walk");
    }
}

#[test]
fn the_beat_between_the_sim_and_the_screen_does_not_reach_the_gait() {
    let mut anim = WalkAnim::default();
    let dt = 1.0 / 120.0;
    let step = 60.0 / 60.0;
    let mut seen = Vec::new();
    for i in 0..240 {
        let moved = if i % 2 == 0 { step } else { 0.0 };
        seen.push(block(anim.advance(moved, dt, STANCE_STAND)));
    }
    assert!(
        seen[24..].iter().all(|&b| b == 1),
        "the sampling beat reached the gait: {:?}",
        &seen[24..]
    );
}

#[test]
fn only_a_standing_soldier_reaches_the_run_frames() {
    for level in [STANCE_CROUCH, STANCE_PRONE] {
        let mut anim = WalkAnim::default();
        for _ in 0..120 {
            let column = anim.advance(120.0 / 60.0, 1.0 / 60.0, level);
            assert!(column < RUN_START, "stance {level} reached column {column}");
        }
    }
}

#[test]
fn standing_still_idles_and_walking_does_not() {
    assert!(blocks(0.0, 60.0, 1.0).iter().all(|&b| b == 0));
    assert!(blocks(60.0, 60.0, 1.0)[24..].iter().all(|&b| b == 1));
    assert!(blocks(120.0, 60.0, 1.0)[24..].iter().all(|&b| b == 2));
}

#[test]
fn the_legs_start_and_stop_with_the_player_not_with_the_window() {
    let mut anim = WalkAnim::default();
    let mut started = None;
    for i in 0..30 {
        if frame(&mut anim, 60.0, 60.0) != IDLE_FRAME {
            started = Some(i);
            break;
        }
    }
    assert!(matches!(started, Some(i) if i <= 2), "legs started at {started:?}");

    for _ in 0..60 {
        frame(&mut anim, 60.0, 60.0);
    }
    let mut stopped = None;
    for i in 0..30 {
        if frame(&mut anim, 0.0, 60.0) == IDLE_FRAME {
            stopped = Some(i);
            break;
        }
    }
    assert!(matches!(stopped, Some(i) if i <= 4), "legs stopped at {stopped:?}");
}
