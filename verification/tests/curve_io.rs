use anarchy_time_control::bounce::{
    bounce_root_argument, last_bounce, BounceFormula, BounceOutline,
};
use anarchy_time_control::bounce_sampler::BounceSampler;
use anarchy_time_control::curve::{
    Position, TimeControl, TimeControlBezier, TimeControlBounce, TimeControlElastic,
    TimeControlMode, TimeControlPoint, TimeControlSegment,
};
use anarchy_time_control::curve_io::{
    encode_u16, hidden_point, load_customized_curve_from_points, load_hashed_curve_from_points,
    load_regular_curve_from_points, mark_payload, parse_curve_from_track, serialize_curve_payload,
    serialize_curve_to_points, serialize_segment_curve_points,
};
use anarchy_time_control::double::Double;
use anarchy_time_control::elastic::{ElasticFormula, ElasticOutline, Wave};
use anarchy_time_control::elastic_sampler::ElasticSampler;
use anarchy_time_control::error::CurveError;
use anarchy_time_control::quantization::{
    curve_hash, hash_bytes, quantize, round_curve_points, HASH_QUANTIZATION_UNIT_INV, XXH32_SEED,
};
use anarchy_time_control::sampler::{Answer, CurveSampler, Question, SegmentSampler};
use anarchy_time_control::spans::{
    hermite_span, reverse_spans, scale_span, spans_to_points, ControlPoint, CubicBezierSpan,
};

fn double(value: f64) -> Double {
    Double::from_bits(value.to_bits())
}

fn float(value: Double) -> f64 {
    f64::from_bits(value.to_bits())
}

fn position(value: [f64; 2]) -> Position {
    Position::new(double(value[0]), double(value[1]))
}

fn floats(value: Position) -> [f64; 2] {
    [float(value.x), float(value.y)]
}

fn point(coordinate: [f64; 2], handle_offset: [f64; 2]) -> ControlPoint {
    ControlPoint {
        coordinate: position(coordinate),
        handle_offset: position(handle_offset),
    }
}

fn assert_point_near(actual: [f64; 2], expected: [f64; 2]) {
    assert!((actual[0] - expected[0]).abs() < 0.000_001);
    assert!((actual[1] - expected[1]).abs() < 0.000_001);
}

fn cubic_point(span: CubicBezierSpan, t: f64) -> [f64; 2] {
    let mt = 1.0 - t;
    let start = floats(span.start);
    let start_handle = floats(span.start_handle);
    let end_handle = floats(span.end_handle);
    let end = floats(span.end);
    [
        mt.powi(3) * start[0]
            + 3.0 * mt.powi(2) * t * start_handle[0]
            + 3.0 * mt * t.powi(2) * end_handle[0]
            + t.powi(3) * end[0],
        mt.powi(3) * start[1]
            + 3.0 * mt.powi(2) * t * start_handle[1]
            + 3.0 * mt * t.powi(2) * end_handle[1]
            + t.powi(3) * end[1],
    ]
}

fn hidden_data(coordinate: [f64; 2], value: f64) -> ControlPoint {
    point(coordinate, [value, 0.0])
}

fn with_customized_curve_header(payload: Vec<ControlPoint>) -> Vec<ControlPoint> {
    let mut hasher = xxhash_rust::xxh32::Xxh32::new(XXH32_SEED);
    let scale = f64::from_bits(HASH_QUANTIZATION_UNIT_INV);
    for point in &payload {
        for value in [
            point.coordinate.x,
            point.coordinate.y,
            point.handle_offset.x,
            point.handle_offset.y,
        ] {
            hasher.update(&((float(value) * scale).round() as i64).to_le_bytes());
        }
    }
    let hash = hasher.digest();
    let hash_first = point([0.0, 0.0], [((hash >> 16) as u16) as f64, 0.0]);
    let hash_second = point([0.0, 0.0], [(hash as u16) as f64, 0.0]);

    let mut points = vec![point([0.0, 0.0], [1.0, 0.0]), hash_first, hash_second];
    points.extend(payload);
    points
}

fn curve_point(at: [f64; 2], handles_separated: bool) -> TimeControlPoint {
    TimeControlPoint {
        position: position(at),
        handles_separated,
    }
}

fn bezier(start_handle: [f64; 2], end_handle: [f64; 2]) -> TimeControlSegment {
    TimeControlSegment::Bezier(TimeControlBezier {
        start_handle: position(start_handle),
        end_handle: position(end_handle),
    })
}

fn elastic(reversed: bool, amplitude: f64, frequency: f64, decay: f64) -> TimeControlElastic {
    TimeControlElastic {
        reversed,
        amplitude: double(amplitude),
        frequency: double(frequency),
        decay: double(decay),
    }
}

fn bounce(reversed: bool, vertex: [f64; 2]) -> TimeControlBounce {
    TimeControlBounce {
        reversed,
        vertex: position(vertex),
    }
}

fn default_elastic() -> TimeControlElastic {
    elastic(false, 1.0, 3.0, 5.0)
}

fn default_bounce() -> TimeControlBounce {
    bounce(false, [0.6, 0.75])
}

fn single_segment(segment: TimeControlSegment) -> TimeControl {
    TimeControl {
        points: vec![
            curve_point([0.0, 0.0], false),
            curve_point([1.0, 1.0], false),
        ],
        segments: vec![segment],
    }
}

fn default_for_mode(mode: TimeControlMode) -> TimeControl {
    single_segment(match mode {
        TimeControlMode::Bezier => bezier([0.25, 0.25], [0.75, 0.75]),
        TimeControlMode::Elastic => TimeControlSegment::Elastic(default_elastic()),
        TimeControlMode::Bounce => TimeControlSegment::Bounce(default_bounce()),
    })
}

fn first_formula(elastic: &TimeControlElastic) -> Result<ElasticFormula, CurveError> {
    let outline = ElasticOutline::new(elastic)?;
    let exp_k = float(outline.exponent()).exp();
    let root = float(outline.root_argument()).sqrt();
    Ok(ElasticFormula::new(outline, double(exp_k), double(root)))
}

/// The value of a function in ordinary floating point.
fn evaluate(question: Question) -> Answer {
    match question {
        Question::Exp(x) => Answer::Number(double(float(x).exp())),
        Question::Sqrt(x) => Answer::Number(double(float(x).sqrt())),
        Question::Ln(x) => Answer::Number(double(float(x).ln())),
        Question::Power { base, exponent } => {
            Answer::Number(double(float(base).powf(float(exponent))))
        }
        Question::WholePower { base, whole } => {
            Answer::Number(double(float(base).powi(whole as i32)))
        }
        Question::Wave {
            base,
            exponent,
            angle,
        } => Answer::Wave(Wave {
            power: double(float(base).powf(float(exponent))),
            cos: double(float(angle).cos()),
            sin: double(float(angle).sin()),
        }),
    }
}

fn segment_spans(segment: TimeControlSegment) -> Result<Vec<CubicBezierSpan>, CurveError> {
    let mut sampler = SegmentSampler::new(&segment);
    while let Some(question) = sampler.question() {
        assert!(!sampler.is_exhausted());
        sampler = sampler.answer(evaluate(question));
    }
    match sampler {
        SegmentSampler::Finished(result) => result,
        _ => panic!("a sampler without questions is finished"),
    }
}

fn elastic_spans(elastic: &TimeControlElastic) -> Result<Vec<CubicBezierSpan>, CurveError> {
    segment_spans(TimeControlSegment::Elastic(*elastic))
}

fn bounce_spans(bounce: &TimeControlBounce) -> Result<Vec<CubicBezierSpan>, CurveError> {
    segment_spans(TimeControlSegment::Bounce(*bounce))
}

fn bounce_formula(bounce: &TimeControlBounce) -> BounceFormula {
    let root = float(bounce_root_argument(bounce)).sqrt();
    let outline = BounceOutline::new(bounce, double(root));
    let cor = float(outline.cor);
    let power = if outline.is_cut_off() {
        let share = float(outline.log_argument()).ln();
        cor.powf(float(last_bounce(double(share), double(cor.ln()))))
    } else {
        0.0
    };
    BounceFormula::new(outline, double(power))
}

fn sample(curve: &TimeControl) -> Vec<Result<Vec<CubicBezierSpan>, CurveError>> {
    let mut sampler = CurveSampler::new(curve);
    while let Some(question) = sampler.question() {
        assert!(!sampler.current.is_exhausted());
        sampler.answer(evaluate(question));
    }
    sampler.finish()
}

fn serialize(curve: &TimeControl) -> Result<Vec<ControlPoint>, CurveError> {
    serialize_curve_to_points(curve, &sample(curve))
}

// The curves in ordinary floating point.

struct ElasticNumbers {
    amplitude: f64,
    frequency: f64,
    decay: f64,
    omega: f64,
    exp_k: f64,
    first_extremum_t: f64,
    first_extremum_value: f64,
}

impl ElasticNumbers {
    fn new(elastic: &TimeControlElastic) -> Self {
        let amplitude = float(elastic.amplitude).clamp(0.0, 1.0);
        let frequency = float(elastic.frequency).max(0.5);
        let decay = float(elastic.decay).max(1.0);
        let mut numbers = Self {
            amplitude,
            frequency,
            decay,
            omega: 2.0 * std::f64::consts::PI * frequency,
            exp_k: (-decay).exp(),
            first_extremum_t: 0.0,
            first_extremum_value: 0.0,
        };
        let mut t = (0.5 - (decay / frequency).sqrt() * 0.05) / frequency;
        for _ in 0..3 {
            t -= numbers.slope(t) / numbers.bend(t);
        }
        numbers.first_extremum_t = t;
        numbers.first_extremum_value = numbers.height(t);
        numbers
    }

    fn height(&self, t: f64) -> f64 {
        let coef = (self.exp_k.powf(t) - self.exp_k) / (1.0 - self.exp_k);
        1.0 - coef * (self.omega * t).cos()
    }

    fn slope(&self, t: f64) -> f64 {
        let angle = self.omega * t;
        let power = self.exp_k.powf(t);
        self.decay * power * angle.cos() + self.omega * (power - self.exp_k) * angle.sin()
    }

    fn bend(&self, t: f64) -> f64 {
        let angle = self.omega * t;
        let power = self.exp_k.powf(t);
        let omega_sq = self.omega * self.omega;
        ((omega_sq - self.decay * self.decay) * power - omega_sq * self.exp_k) * angle.cos()
            - 2.0 * self.omega * self.decay * power * angle.sin()
    }

    fn state(&self, t: f64) -> (f64, f64) {
        let value = self.height(t);
        let derivative = self.slope(t) / (1.0 - self.exp_k);
        let (value, derivative) = if t < self.first_extremum_t {
            let scale = (self.amplitude * (self.first_extremum_value - 1.0) + 1.0)
                / self.first_extremum_value;
            (scale * value, scale * derivative)
        } else {
            (
                self.amplitude * (value - 1.0) + 1.0,
                self.amplitude * derivative,
            )
        };
        if !(0.0..=2.0).contains(&value) {
            (value.clamp(0.0, 2.0), 0.0)
        } else {
            (value, derivative)
        }
    }

    fn vertices(&self) -> Vec<f64> {
        let divisions = (self.frequency * 8.0).ceil() as usize;
        let mut extrema = Vec::new();
        let mut previous_t = 0.0;
        let mut previous = self.slope(previous_t);
        for index in 1..=divisions {
            let current_t = index as f64 / divisions as f64;
            let current = self.slope(current_t);
            if previous == 0.0 && previous_t > 0.0 {
                extrema.push(previous_t);
            } else if previous.signum() != current.signum() {
                let (mut min_t, mut max_t, mut min_slope) = (previous_t, current_t, previous);
                for _ in 0..48 {
                    let middle_t = (min_t + max_t) / 2.0;
                    let middle = self.slope(middle_t);
                    if min_slope.signum() == middle.signum() {
                        min_t = middle_t;
                        min_slope = middle;
                    } else {
                        max_t = middle_t;
                    }
                }
                extrema.push((min_t + max_t) / 2.0);
            }
            previous_t = current_t;
            previous = current;
        }
        extrema.dedup_by(|left, right| (*left - *right).abs() < 0.000_000_001);
        extrema.retain(|t| *t > 0.0 && *t < 1.0);
        let mut vertices = vec![0.0];
        vertices.extend(extrema);
        vertices.push(1.0);
        vertices
    }
}

fn hermite_numbers(x0: f64, y0: f64, s0: f64, x1: f64, y1: f64, s1: f64) -> [[f64; 2]; 4] {
    let width = x1 - x0;
    [
        [x0, y0],
        [x0 + width / 3.0, y0 + s0 * width / 3.0],
        [x1 - width / 3.0, y1 - s1 * width / 3.0],
        [x1, y1],
    ]
}

fn span_numbers(span: &CubicBezierSpan) -> [[f64; 2]; 4] {
    [
        floats(span.start),
        floats(span.start_handle),
        floats(span.end_handle),
        floats(span.end),
    ]
}

fn assert_same_bits(actual: [[f64; 2]; 4], expected: [[f64; 2]; 4]) {
    for (actual, expected) in actual.iter().flatten().zip(expected.iter().flatten()) {
        assert_eq!(actual.to_bits(), expected.to_bits());
    }
}

fn elastic_numbers(elastic: &TimeControlElastic) -> Vec<[[f64; 2]; 4]> {
    let numbers = ElasticNumbers::new(elastic);
    numbers
        .vertices()
        .windows(2)
        .map(|ends| {
            let (y0, s0) = numbers.state(ends[0]);
            let (y1, s1) = numbers.state(ends[1]);
            hermite_numbers(ends[0], y0, s0, ends[1], y1, s1)
        })
        .collect()
}

struct BounceNumbers {
    cor: f64,
    period: f64,
    active_end: f64,
}

impl BounceNumbers {
    fn new(bounce: &TimeControlBounce) -> Self {
        let vertex = floats(bounce.vertex);
        let handle_x = vertex[0].clamp(0.001, 0.999);
        let handle_y = vertex[1].clamp(0.001, 1.0);
        let cor = (1.0 - handle_y).sqrt().clamp(0.001, 0.999);
        let period = 2.0 * handle_x / (cor + 1.0);
        let limit = period * (1.0 / (1.0 - cor) - 0.5);
        let end = if limit > 1.0 {
            let index = ((1.0 + (cor - 1.0) * (1.0 / period + 0.5)).ln() / cor.ln()).floor();
            period * ((cor.powf(index) - 1.0) / (cor - 1.0) - 0.5)
        } else {
            limit
        };
        Self {
            cor,
            period,
            active_end: end.clamp(0.0, 1.0),
        }
    }

    fn boundary(&self, index: usize) -> f64 {
        self.period * ((self.cor.powi(index as i32) - 1.0) / (self.cor - 1.0) - 0.5)
    }

    fn vertex(&self, index: usize) -> f64 {
        self.period
            * (-0.5 - 1.0 / (self.cor - 1.0)
                + (self.cor + 1.0) * self.cor.powi(index as i32) / (2.0 * self.cor - 2.0))
    }

    fn state(&self, index: usize, t: f64) -> (f64, f64) {
        let offset = t / self.period - self.vertex(index) / self.period;
        (
            1.0 + 4.0 * offset * offset - self.cor.powi((index * 2) as i32),
            8.0 * offset / self.period,
        )
    }

    fn spans(&self) -> Vec<[[f64; 2]; 4]> {
        let mut spans = Vec::new();
        let mut index = 0;
        loop {
            let left = self.boundary(index).max(0.0);
            if left >= self.active_end {
                break;
            }
            let vertex = self.vertex(index);
            let right = self.boundary(index + 1).min(self.active_end);
            for (from, to) in [(left, vertex), (vertex, right)] {
                if to > from {
                    let (y0, s0) = self.state(index, from);
                    let (y1, s1) = self.state(index, to);
                    spans.push(hermite_numbers(from, y0, s0, to, y1, s1));
                }
            }
            if right >= self.active_end
                || self.active_end - right <= 1.0 / 1e6
                || self.cor.powi((index * 2) as i32) < 1.0 / 1e6
            {
                break;
            }
            index += 1;
        }
        let end = spans.last().expect("a bounce has spans")[3][0];
        if end < 1.0 {
            spans.push(hermite_numbers(end, 1.0, 0.0, 1.0, 1.0, 0.0));
        }
        spans
    }

    /// The height of the curve at a moment.
    fn y_at_x(&self, x: f64) -> f64 {
        if x >= self.active_end {
            return 1.0;
        }
        let mut index = 0;
        while self.boundary(index + 1) < x {
            index += 1;
        }
        self.state(index, x).0
    }
}

#[test]
fn regular_points_are_deserialized_as_linked_bezier_segments() {
    let points = vec![
        point([0.0, 0.0], [0.2, 0.3]),
        point([0.4, 0.5], [0.1, 0.2]),
        point([1.0, 1.0], [0.25, -0.1]),
    ];

    assert!(load_customized_curve_from_points(&points)
        .expect("regular points must be accepted")
        .is_none());
    let curve =
        load_regular_curve_from_points(&points).expect("regular points must be deserialized");

    assert_eq!(curve.points.len(), 3);
    assert_eq!(curve.segments.len(), 2);
    assert_eq!(floats(curve.points[1].position), [0.4, 0.5]);
    assert!(!curve.points.iter().any(|point| point.handles_separated));
    let Some(first) = curve.segment_bezier(0) else {
        panic!("first segment must be Bezier");
    };
    assert_point_near(floats(first.start_handle), [0.2, 0.3]);
    assert_point_near(floats(first.end_handle), [0.3, 0.3]);
    let Some(second) = curve.segment_bezier(1) else {
        panic!("second segment must be Bezier");
    };
    assert_point_near(floats(second.start_handle), [0.5, 0.7]);
    assert_point_near(floats(second.end_handle), [0.75, 1.1]);
}

#[test]
fn customized_points_are_deserialized_by_segment_mode() {
    let payload = vec![
        hidden_data([0.0, 0.0], 2.0),
        hidden_data([0.0, 0.0], 0b100 as f64),
        hidden_data([0.0, 0.0], 0.1),
        hidden_data([0.0, 0.0], 0.2),
        hidden_data([0.0, 0.0], 0.3),
        hidden_data([0.0, 0.0], 0.4),
        point([0.0, 0.0], [0.1, 0.0]),
        point([0.4, 0.3], [0.1, 0.0]),
        hidden_data([0.4, 0.3], 2.0),
        hidden_data([0.4, 0.3], 0b101 as f64),
        hidden_data([0.4, 0.3], 0.6),
        hidden_data([0.4, 0.3], 2.5),
        hidden_data([0.4, 0.3], 3.0),
        point([0.4, 0.3], [0.1, 0.0]),
        point([0.7, 0.8], [0.1, 0.0]),
        hidden_data([0.7, 0.8], 2.0),
        hidden_data([0.7, 0.8], 0b010 as f64),
        hidden_data([0.7, 0.8], 0.55),
        hidden_data([0.7, 0.8], 0.75),
        point([0.7, 0.8], [0.1, 0.0]),
        point([1.0, 1.0], [0.1, 0.0]),
    ];
    let points = with_customized_curve_header(payload);

    let curve = load_customized_curve_from_points(&points)
        .expect("customized points must be accepted")
        .expect("customized points must be detected");

    assert_eq!(curve.points.len(), 4);
    assert_eq!(curve.segments.len(), 3);
    assert_eq!(floats(curve.points[0].position), [0.0, 0.0]);
    assert_eq!(floats(curve.points[1].position), [0.4, 0.3]);
    assert_eq!(floats(curve.points[2].position), [0.7, 0.8]);
    assert_eq!(floats(curve.points[3].position), [1.0, 1.0]);
    assert!(curve.points[0].handles_separated);
    assert!(!curve.points[1].handles_separated);

    let Some(bezier) = curve.segment_bezier(0) else {
        panic!("first segment must be Bezier");
    };
    assert_eq!(floats(bezier.start_handle), [0.1, 0.2]);
    assert_eq!(floats(bezier.end_handle), [0.3, 0.4]);
    let Some(TimeControlSegment::Elastic(elastic)) = curve.segments.get(1) else {
        panic!("second segment must be Elastic");
    };
    assert!(elastic.reversed);
    assert_eq!(float(elastic.amplitude), 0.6);
    assert_eq!(float(elastic.frequency), 2.5);
    assert_eq!(float(elastic.decay), 3.0);
    let Some(TimeControlSegment::Bounce(bounce)) = curve.segments.get(2) else {
        panic!("third segment must be Bounce");
    };
    assert!(!bounce.reversed);
    assert_eq!(floats(bounce.vertex), [0.55, 0.75]);
}

#[test]
fn customized_points_reject_truncated_sampled_points() {
    let points = with_customized_curve_header(vec![
        hidden_data([0.0, 0.0], 3.0),
        hidden_data([0.0, 0.0], 0b010 as f64),
        hidden_data([0.0, 0.0], 0.55),
        hidden_data([0.0, 0.0], 0.75),
        point([0.0, 0.0], [0.1, 0.0]),
        point([1.0, 1.0], [0.1, 0.0]),
    ]);

    let error = load_customized_curve_from_points(&points)
        .expect_err("truncated sampled points must be rejected");

    assert!(error
        .message()
        .contains("declared number of sampled points"));
}

#[test]
fn customized_points_reject_missing_second_start_point() {
    let points = with_customized_curve_header(vec![hidden_data([0.0, 0.0], 2.0)]);

    let error = load_customized_curve_from_points(&points)
        .expect_err("a segment without its flags point must be rejected");

    assert!(error.message().contains("does not contain its flags"));
}

#[test]
fn bezier_segment_is_serialized_with_its_original_handles() {
    let curve = TimeControl {
        points: vec![
            curve_point([0.0, 0.0], true),
            curve_point([1.0, 1.0], false),
        ],
        segments: vec![bezier([0.2, -0.3], [0.8, 1.4])],
    };

    let serialized = serialize(&curve).expect("curve must be serialized");

    assert_eq!(serialized.len(), 11);
    assert!(serialized[3..9]
        .iter()
        .all(|point| float(point.handle_offset.y) == 0.0));
    assert_point_near(floats(serialized[9].coordinate), [0.0, 0.0]);
    assert_point_near(floats(serialized[9].handle_offset), [0.2, -0.3]);
    assert_point_near(floats(serialized[10].coordinate), [1.0, 1.0]);
    assert_point_near(floats(serialized[10].handle_offset), [0.2, -0.4]);
    let restored = load_customized_curve_from_points(&serialized)
        .expect("serialized curve must pass validation")
        .expect("serialized curve must be customized");
    assert!(restored.points[0].handles_separated);
    let Some(bezier) = restored.segment_bezier(0) else {
        panic!("restored segment must be Bezier");
    };
    assert_point_near(floats(bezier.start_handle), [0.2, -0.3]);
    assert_point_near(floats(bezier.end_handle), [0.8, 1.4]);
}

#[test]
fn serialized_hidden_points_do_not_use_y_handles() {
    for (mode, hidden_point_count) in [
        (TimeControlMode::Bezier, 6),
        (TimeControlMode::Elastic, 5),
        (TimeControlMode::Bounce, 4),
    ] {
        let curve = default_for_mode(mode);
        let serialized = serialize(&curve).expect("curve must be serialized");
        let hidden_points = &serialized[3..3 + hidden_point_count];

        assert!(hidden_points
            .iter()
            .all(|point| float(point.handle_offset.y) == 0.0));
    }
}

#[test]
fn elastic_spans_put_horizontal_handles_at_extrema() {
    let elastic = default_elastic();
    let spans = elastic_spans(&elastic).expect("elastic curve must be converted");
    let curve = ElasticNumbers::new(&elastic);

    assert!(spans.len() > 2);
    for span in &spans {
        let start = floats(span.start);
        let end = floats(span.end);
        assert!((start[1] - curve.state(start[0]).0).abs() < 0.000_001);
        assert!((end[1] - curve.state(end[0]).0).abs() < 0.000_001);
    }
    for spans in spans.windows(2) {
        assert_point_near(floats(spans[0].end), floats(spans[1].start));
        assert!((float(spans[0].end_handle.y) - float(spans[0].end.y)).abs() < 0.000_001);
        assert!((float(spans[1].start_handle.y) - float(spans[1].start.y)).abs() < 0.000_001);
    }
}

#[test]
fn bounce_spans_follow_each_parabola_and_keep_contacts_sharp() {
    let bounce = default_bounce();
    let spans = bounce_spans(&bounce).expect("bounce curve must be converted");
    let curve = BounceNumbers::new(&bounce);

    for span in &spans {
        let middle = cubic_point(*span, 0.5);
        assert!((middle[1] - curve.y_at_x(middle[0])).abs() < 0.000_001);
    }
    let contact = spans
        .windows(2)
        .find(|spans| {
            (float(spans[0].end.x) - float(spans[1].start.x)).abs() < 0.000_001
                && (float(spans[0].end.y) - 1.0).abs() < 0.000_001
                && float(spans[0].end.x) < 0.999
        })
        .expect("bounce curve must contain a contact point");
    assert!(float(contact[0].end_handle.y) < float(contact[0].end.y));
    assert!(float(contact[1].start_handle.y) < float(contact[1].start.y));
}

fn mixed_curve() -> TimeControl {
    TimeControl {
        points: vec![
            curve_point([0.0, 0.0], true),
            curve_point([0.3, 0.4], false),
            curve_point([0.7, 0.6], false),
            curve_point([1.0, 1.0], false),
        ],
        segments: vec![
            bezier([0.1, 0.2], [0.2, 0.35]),
            TimeControlSegment::Elastic(elastic(true, 0.7, 3.5, 4.0)),
            TimeControlSegment::Bounce(bounce(false, [0.6, 0.8])),
        ],
    }
}

#[test]
fn mixed_curve_round_trips_through_serialized_points() {
    let curve = mixed_curve();

    let serialized = serialize(&curve).expect("curve must be serialized");
    let restored = load_customized_curve_from_points(&serialized)
        .expect("serialized curve must pass validation")
        .expect("serialized curve must be customized");

    assert_eq!(restored.points.len(), curve.points.len());
    assert_eq!(restored.segments.len(), curve.segments.len());
    for (actual, expected) in restored.points.iter().zip(&curve.points) {
        assert_point_near(floats(actual.position), floats(expected.position));
    }
    let Some(bezier) = restored.segment_bezier(0) else {
        panic!("first segment must be Bezier");
    };
    assert_point_near(floats(bezier.start_handle), [0.1, 0.2]);
    assert_point_near(floats(bezier.end_handle), [0.2, 0.35]);
    let Some(TimeControlSegment::Elastic(elastic)) = restored.segments.get(1) else {
        panic!("second segment must be Elastic");
    };
    assert!(elastic.reversed);
    assert_eq!(float(elastic.amplitude), 0.7);
    assert_eq!(float(elastic.frequency), 3.5);
    assert_eq!(float(elastic.decay), 4.0);
    let Some(TimeControlSegment::Bounce(bounce)) = restored.segments.get(2) else {
        panic!("third segment must be Bounce");
    };
    assert!(!bounce.reversed);
    assert_eq!(floats(bounce.vertex), [0.6, 0.8]);
}

#[test]
fn serialized_points_are_protected_by_the_curve_hash() {
    let mut serialized = serialize(&default_for_mode(TimeControlMode::Bezier))
        .expect("curve must be serialized");
    let last = serialized
        .last_mut()
        .expect("serialized curve must contain points");
    last.coordinate.y = double(float(last.coordinate.y) + 0.01);

    let error = load_customized_curve_from_points(&serialized)
        .expect_err("modified curve points must fail hash validation");

    assert!(error.message().contains("Curve hash mismatch"));
}

#[test]
fn function_segment_spans_are_reversed_with_their_handles() {
    let normal_elastic = default_elastic();
    let mut reversed_elastic = normal_elastic;
    reversed_elastic.reversed = true;
    let normal = elastic_spans(&normal_elastic).expect("elastic curve must be converted");
    let reversed =
        elastic_spans(&reversed_elastic).expect("reversed elastic curve must be converted");

    assert_eq!(normal.len(), reversed.len());
    let turned = |point: Position| [1.0 - float(point.x), 1.0 - float(point.y)];
    for (normal, reversed) in normal.iter().zip(reversed.iter().rev()) {
        assert_point_near(floats(reversed.start), turned(normal.end));
        assert_point_near(floats(reversed.start_handle), turned(normal.end_handle));
        assert_point_near(floats(reversed.end_handle), turned(normal.start_handle));
        assert_point_near(floats(reversed.end), turned(normal.start));
    }
}

#[test]
fn serialization_rejects_inconsistent_curve_structure() {
    let curve = TimeControl {
        points: vec![curve_point([0.0, 0.0], false)],
        segments: vec![bezier([0.2, 0.2], [0.8, 0.8])],
    };

    let error = serialize(&curve)
        .err()
        .expect("inconsistent curve must be rejected");

    assert!(error.message().contains("inconsistent"));
}

// Sampling.

#[test]
fn elastic_spans_are_those_of_ordinary_floating_point() {
    for elastic in [
        default_elastic(),
        elastic(false, 0.7, 3.5, 4.0),
        elastic(false, 0.0, 1.0, 1.0),
        elastic(false, 2.0, 0.1, 0.0),
        elastic(false, 0.25, 12.75, 9.5),
        elastic(false, 1.0, 40.0, 1.0),
    ] {
        let spans = elastic_spans(&elastic).expect("elastic curve must be converted");
        let expected = elastic_numbers(&elastic);
        assert_eq!(spans.len(), expected.len());
        for (span, expected) in spans.iter().zip(expected) {
            assert_same_bits(span_numbers(span), expected);
        }
    }
}

#[test]
fn elastic_parameters_are_held_in_their_ranges() {
    let outline =
        ElasticOutline::new(&elastic(false, 3.0, 0.25, -2.0)).expect("the frequency is low");
    assert_eq!(float(outline.amplitude), 1.0);
    assert_eq!(float(outline.frequency), 0.5);
    assert_eq!(float(outline.decay), 1.0);
    assert_eq!(float(outline.omega), std::f64::consts::PI);
    assert_eq!(float(outline.exponent()), -1.0);
    assert_eq!(float(outline.root_argument()), 2.0);
    let outline = ElasticOutline::new(&elastic(false, f64::NAN, f64::NAN, f64::NAN))
        .expect("the frequency is low");
    assert!(float(outline.amplitude).is_nan());
    assert_eq!(float(outline.frequency), 0.5);
    assert_eq!(float(outline.decay), 1.0);
}

#[test]
fn elastic_segments_of_too_high_frequency_are_refused() {
    assert!(ElasticOutline::new(&elastic(false, 1.0, 16383.0, 5.0)).is_ok());
    for frequency in [16383.5, 1e300, f64::INFINITY] {
        let refused = elastic_spans(&elastic(false, 1.0, frequency, 5.0));
        assert_eq!(refused, Err(CurveError::ElasticTooLong));
    }
    assert_eq!(
        CurveError::ElasticTooLong.message(),
        "Elastic frequency produces too many curve points"
    );
    let curve = single_segment(TimeControlSegment::Elastic(elastic(false, 1.0, 1e9, 5.0)));
    assert_eq!(serialize(&curve), Err(CurveError::ElasticTooLong));
}

#[test]
fn elastic_spans_reach_from_end_to_end() {
    for reversed in [false, true] {
        let spans = elastic_spans(&elastic(reversed, 0.8, 4.25, 3.0)).expect("must be converted");
        assert_eq!(spans[0].start.x.to_bits(), 0.0_f64.to_bits());
        assert_eq!(spans[spans.len() - 1].end.x.to_bits(), 1.0_f64.to_bits());
        for spans in spans.windows(2) {
            assert_eq!(spans[0].end, spans[1].start);
        }
    }
}

#[test]
fn elastic_sampler_asks_for_a_bounded_number_of_waves() {
    let elastic = elastic(false, 1.0, 2.0, 3.0);
    let mut sampler = ElasticSampler::new(&elastic, first_formula(&elastic).expect("low"));
    assert_eq!(sampler.divisions, 16);
    let flat = Wave {
        power: double(1.0),
        cos: double(1.0),
        sin: double(0.0),
    };
    let mut questions = 0;
    while sampler.question().is_some() {
        sampler.answer(flat);
        questions += 1;
    }
    // Three refinements, the height, seventeen slopes and the two ends.
    assert_eq!(questions, 3 + 1 + 17 + 2);
    assert_eq!(sampler.finish().len(), 1);
}

#[test]
fn elastic_sampler_halves_an_interval_to_its_crossing() {
    let elastic = elastic(false, 1.0, 0.5, 1.0);
    let mut sampler = ElasticSampler::new(&elastic, first_formula(&elastic).expect("low"));
    assert_eq!(sampler.divisions, 4);
    let mut moments = vec![];
    while let Some(progress) = sampler.question() {
        moments.push(float(progress));
        // The slope is positive up to 0.3 and negative after it.
        let rising = float(progress) < 0.3;
        sampler.answer(Wave {
            power: double(1.0),
            cos: double(if rising { 1.0 } else { -1.0 }),
            sin: double(0.0),
        });
    }
    let spans = sampler.finish();
    assert_eq!(spans.len(), 2);
    assert!((float(spans[0].end.x) - 0.3).abs() < 1e-14);
    assert_eq!(&moments[4..8], &[0.0, 0.25, 0.5, 0.375]);
    assert_eq!(moments.len(), 3 + 1 + 5 + 48 + 3);
}

#[test]
fn bounce_spans_are_those_of_ordinary_floating_point() {
    for bounce in [
        default_bounce(),
        bounce(false, [0.6, 0.8]),
        bounce(false, [0.3, 0.5]),
        bounce(false, [0.9, 0.1]),
        bounce(false, [0.001, 0.001]),
        bounce(false, [5.0, 5.0]),
        bounce(false, [-1.0, -1.0]),
        bounce(false, [0.999, 0.001]),
        bounce(false, [0.5, 1.0]),
    ] {
        let spans = bounce_spans(&bounce).expect("bounce curve must be converted");
        let expected = BounceNumbers::new(&bounce).spans();
        assert_eq!(spans.len(), expected.len());
        for (span, expected) in spans.iter().zip(expected) {
            assert_same_bits(span_numbers(span), expected);
        }
    }
}

#[test]
fn bounce_formula_is_that_of_ordinary_floating_point() {
    for vertex in [[0.6, 0.75], [0.9, 0.1], [0.05, 0.9], [0.5, 0.5]] {
        let bounce = bounce(false, vertex);
        let formula = bounce_formula(&bounce);
        let expected = BounceNumbers::new(&bounce);
        assert_eq!(float(formula.cor), expected.cor);
        assert_eq!(float(formula.period), expected.period);
        assert_eq!(float(formula.active_end), expected.active_end);
        for index in 0..4 {
            let power = double(expected.cor.powi(index as i32));
            let squared = double(expected.cor.powi((index * 2) as i32));
            assert_eq!(float(formula.boundary(power)), expected.boundary(index));
            assert_eq!(float(formula.vertex(power)), expected.vertex(index));
            let (y, slope) = formula.value_and_derivative(power, squared, double(0.4));
            assert_eq!((float(y), float(slope)), expected.state(index, 0.4));
        }
    }
}

#[test]
fn reversed_bounce_is_turned_half_round() {
    let normal = bounce_spans(&bounce(false, [0.4, 0.6])).expect("must be converted");
    let reversed = bounce_spans(&bounce(true, [0.4, 0.6])).expect("must be converted");
    assert_eq!(reversed, reverse_spans(normal));
}

#[test]
fn bounce_that_never_rests_has_too_many_points() {
    let bounce = default_bounce();
    let formula = BounceFormula {
        cor: double(0.5),
        period: double(1.0),
        active_end: double(1.0),
    };
    let mut sampler = BounceSampler::new(&bounce, formula);
    // With powers that hardly fall, each bounce is drawn with one span.
    let mut asked = 0_u32;
    while let Some(exponent) = sampler.question() {
        asked += 1;
        sampler.answer(double(0.75 - exponent as f64 / 100_000.0));
    }
    assert_eq!(asked, 1 + 2 * 32768);
    assert_eq!(sampler.finish(), Err(CurveError::BounceTooLong));
    assert_eq!(
        CurveError::BounceTooLong.message(),
        "Bounce parameters produce too many curve points"
    );
}

#[test]
fn bounce_without_room_has_no_spans() {
    let formula = BounceFormula {
        cor: double(0.5),
        period: double(1.0),
        active_end: double(0.0),
    };
    let mut sampler = BounceSampler::new(&default_bounce(), formula);
    while let Some(exponent) = sampler.question() {
        sampler.answer(double(0.5_f64.powi(exponent as i32)));
    }
    let finished = sampler.finish();
    assert_eq!(finished, Err(CurveError::BounceEmpty));
    assert_eq!(
        CurveError::BounceEmpty.message(),
        "Bounce curve did not produce any spans"
    );
}

#[test]
fn bounce_sampler_asks_for_the_powers_in_turn() {
    let mut sampler = BounceSampler::new(&default_bounce(), bounce_formula(&default_bounce()));
    let cor = float(sampler.formula.cor);
    let mut exponents = vec![];
    while let Some(exponent) = sampler.question() {
        exponents.push(exponent);
        sampler.answer(double(cor.powi(exponent as i32)));
    }
    assert_eq!(&exponents[..7], &[0, 0, 1, 2, 2, 4, 3]);
}

#[test]
fn curves_are_sampled_segment_by_segment() {
    let curve = mixed_curve();
    let sampled = sample(&curve);
    assert_eq!(sampled.len(), 3);
    assert_eq!(sampled[0], Ok(vec![]));
    for (segment, sampled) in curve.segments.iter().zip(&sampled) {
        assert_eq!(segment_spans(*segment), *sampled);
    }
    let nothing = TimeControl {
        points: vec![],
        segments: vec![],
    };
    assert_eq!(sample(&nothing), vec![]);
}

#[test]
fn sampling_stops_at_the_first_segment_that_cannot_be_drawn() {
    let curve = TimeControl {
        points: vec![
            curve_point([0.0, 0.0], false),
            curve_point([0.2, 0.2], false),
            curve_point([0.6, 0.6], false),
            curve_point([1.0, 1.0], false),
        ],
        segments: vec![
            bezier([0.1, 0.1], [0.15, 0.15]),
            TimeControlSegment::Elastic(elastic(false, 1.0, 1e9, 5.0)),
            TimeControlSegment::Bounce(bounce(false, [f64::NAN, f64::NAN])),
        ],
    };
    let sampler = CurveSampler::new(&curve);
    assert!(sampler.question().is_none());
    assert_eq!(sampler.sampled.len(), 2);
    assert_eq!(sampler.failure, Some(CurveError::ElasticTooLong));
    let sampled = sampler.finish();
    assert_eq!(
        sampled,
        vec![
            Ok(vec![]),
            Err(CurveError::ElasticTooLong),
            Err(CurveError::ElasticTooLong),
        ]
    );
    let stored = serialize_curve_to_points(&curve, &sampled);
    assert_eq!(stored, Err(CurveError::ElasticTooLong));
    // What stands behind the failure does not matter.
    let otherwise = vec![
        Ok(vec![]),
        Err(CurveError::ElasticTooLong),
        Err(CurveError::BounceEmpty),
    ];
    assert_eq!(serialize_curve_to_points(&curve, &otherwise), stored);
}

#[test]
fn inconsistent_curves_are_not_sampled() {
    let mut curve = mixed_curve();
    curve.segments.remove(0);
    let sampler = CurveSampler::new(&curve);
    assert!(sampler.question().is_none());
    assert_eq!(sampler.failure, Some(CurveError::Inconsistent));
    let sampled = sampler.finish();
    assert_eq!(
        sampled,
        vec![Err(CurveError::Inconsistent), Err(CurveError::Inconsistent)]
    );
    assert_eq!(
        serialize_curve_to_points(&curve, &sampled),
        Err(CurveError::Inconsistent)
    );
    let nothing = TimeControl {
        points: vec![curve_point([0.0, 0.0], false)],
        segments: vec![],
    };
    let sampler = CurveSampler::new(&nothing);
    assert_eq!(sampler.failure, Some(CurveError::NothingToStore));
}

#[test]
fn spans_run_from_left_to_right() {
    let mut segments = vec![];
    for reversed in [false, true] {
        for (amplitude, frequency, decay) in
            [(1.0, 3.0, 5.0), (0.0, 0.5, 1.0), (0.8, 4.25, 3.0), (1.0, 40.0, 1.0)]
        {
            segments.push(TimeControlSegment::Elastic(elastic(
                reversed, amplitude, frequency, decay,
            )));
        }
        for vertex in [[0.6, 0.75], [0.1, 0.2], [0.9, 1.0], [0.3, 0.001]] {
            segments.push(TimeControlSegment::Bounce(bounce(reversed, vertex)));
        }
    }
    for segment in segments {
        for span in segment_spans(segment).expect("must be drawn") {
            assert!(float(span.start.x) <= float(span.end.x));
        }
    }
}

#[test]
fn bounce_spans_reach_from_end_to_end() {
    for vertex in [[0.6, 0.75], [0.1, 0.2], [0.9, 1.0], [0.25, 0.5]] {
        let spans = bounce_spans(&bounce(false, vertex)).expect("must be drawn");
        assert_eq!(float(spans[0].start.x), 0.0);
        assert!(float(spans[spans.len() - 1].end.x) >= 1.0);
    }
    // The first vertex may be computed a little before zero.
    let early = bounce(false, [0.05, 0.6]);
    let spans = bounce_spans(&early).expect("must be drawn");
    assert_eq!(spans[0].start.x, bounce_formula(&early).vertex(double(1.0)));
    assert!(float(spans[0].start.x) < 0.0);
    assert!(float(spans[0].start.x) > -1e-15);
    // The two spans of one bounce meet at its vertex.
    let bounce = default_bounce();
    let formula = bounce_formula(&bounce);
    let cor = float(formula.cor);
    let spans = bounce_spans(&bounce).expect("must be drawn");
    let middle = formula.vertex(double(cor.powi(1)));
    assert_eq!(spans[1].end, spans[2].start);
    assert_eq!(spans[1].end.x, middle);
}

#[test]
fn samplers_ask_for_one_function_after_the_other() {
    let elastic = elastic(false, 1.0, 2.0, 3.0);
    let sampler = SegmentSampler::new(&TimeControlSegment::Elastic(elastic));
    assert_eq!(sampler.question(), Some(Question::Exp(double(-3.0))));
    let sampler = sampler.answer(Answer::Number(double(0.25)));
    assert_eq!(sampler.question(), Some(Question::Sqrt(double(1.5))));
    let sampler = sampler.answer(Answer::Number(double(2.0)));
    let guess = (0.5 - 2.0 * 0.05) / 2.0;
    assert_eq!(
        sampler.question(),
        Some(Question::Wave {
            base: double(0.25),
            exponent: double(guess),
            angle: double(2.0 * std::f64::consts::PI * 2.0 * guess),
        })
    );

    // A ball that is still bouncing at the end of the segment.
    let bounce = bounce(false, [0.999, 0.5]);
    let sampler = SegmentSampler::new(&TimeControlSegment::Bounce(bounce));
    assert_eq!(sampler.question(), Some(Question::Sqrt(double(0.5))));
    let sampler = sampler.answer(Answer::Number(double(0.75)));
    let period = 2.0 * 0.999 / (0.75 + 1.0);
    let share = 1.0 + (0.75 - 1.0) * (1.0 / period + 0.5);
    assert_eq!(sampler.question(), Some(Question::Ln(double(share))));
    let sampler = sampler.answer(Answer::Number(double(-2.5)));
    assert_eq!(sampler.question(), Some(Question::Ln(double(0.75))));
    let sampler = sampler.answer(Answer::Number(double(-1.0)));
    assert_eq!(
        sampler.question(),
        Some(Question::Power {
            base: double(0.75),
            exponent: double(2.0)
        })
    );
    let sampler = sampler.answer(Answer::Number(double(0.5)));
    assert_eq!(
        sampler.question(),
        Some(Question::WholePower {
            base: double(0.75),
            whole: 0
        })
    );
}

// Spans.

#[test]
fn bounces_leave_no_gap_and_stay_in_the_unit_square() {
    for vertex in [[0.6, 0.75], [0.1, 0.2], [0.9, 0.95], [0.25, 0.5], [0.05, 0.6]] {
        for reversed in [false, true] {
            let spans = bounce_spans(&bounce(reversed, vertex)).expect("must be drawn");
            for spans in spans.windows(2) {
                assert_eq!(spans[0].end.x, spans[1].start.x);
            }
        }
        let spans = bounce_spans(&bounce(false, vertex)).expect("must be drawn");
        for (k, span) in spans.iter().enumerate() {
            assert!(k == 0 || float(span.start.x) >= 0.0);
            assert!(float(span.end.x) <= 1.0);
        }
        // Neighbouring bounces meet where the second begins.
        let formula = bounce_formula(&bounce(false, vertex));
        let cor = float(formula.cor);
        let contact = formula.boundary(double(cor));
        assert!(spans
            .windows(2)
            .any(|spans| spans[0].end.x == contact && spans[1].start.x == contact));
    }
}

#[test]
fn bounces_touch_the_line_at_their_contacts() {
    for vertex in [[0.6, 0.75], [0.001, 0.001], [0.999, 1.0], [0.9, 0.01], [-5.0, 7.0]] {
        let formula = bounce_formula(&bounce(false, vertex));
        let cor = float(formula.cor);
        let period = float(formula.period);
        assert!((1.0 / 1024.0..=1023.0 / 1024.0).contains(&cor));
        assert!((1.0 / 2048.0..=2.0).contains(&period));
        for index in 0..40 {
            let power = double(cor.powi(index));
            let squared = double(cor.powi(2 * index));
            for moment in [power, double(cor.powi(index + 1))] {
                let at = formula.boundary(moment);
                let (height, _) = formula.value_and_derivative(power, squared, at);
                assert!((float(height) - 1.0).abs() <= 0.000_000_25);
            }
        }
    }
}

#[test]
fn spans_have_their_ends_on_the_curve() {
    let segment = default_bounce();
    let formula = bounce_formula(&segment);
    let spans = bounce_spans(&segment).expect("must be drawn");
    let cor = float(formula.cor);
    // The spans of the second bounce.
    let (power, squared) = (double(cor), double(cor.powi(2)));
    let (from, to) = (formula.boundary(power), formula.vertex(power));
    let piece = formula.bounce_span(power, squared, from, to);
    assert!(spans.contains(&piece));
    assert_eq!(
        piece.end.y,
        formula.value_and_derivative(power, squared, to).0
    );
    let sampled = elastic_spans(&default_elastic()).expect("must be drawn");
    let numbers = ElasticNumbers::new(&default_elastic());
    for span in sampled.iter().skip(2) {
        let height = numbers.height(float(span.start.x));
        assert!((float(span.start.y) - height).abs() < 0.000_001);
    }
}

#[test]
fn hermite_span_has_its_handles_at_the_thirds() {
    let span = hermite_span(
        double(0.5),
        double(2.0),
        double(3.0),
        double(2.0),
        double(1.0),
        double(-1.0),
    );
    assert_same_bits(
        span_numbers(&span),
        [[0.5, 2.0], [1.0, 3.5], [1.5, 1.5], [2.0, 1.0]],
    );
}

#[test]
fn spans_are_scaled_between_two_corners() {
    let span = hermite_span(
        double(0.0),
        double(0.0),
        double(1.0),
        double(1.0),
        double(1.0),
        double(1.0),
    );
    let scaled = scale_span(span, position([2.0, 4.0]), position([8.0, 1.0]));
    assert_same_bits(
        span_numbers(&scaled),
        [
            [2.0, 4.0],
            [2.0 + 6.0 * (1.0 / 3.0), 4.0 - 3.0 * (1.0 / 3.0)],
            [
                2.0 + 6.0 * (1.0 - 1.0 / 3.0),
                4.0 - 3.0 * (1.0 - 1.0 / 3.0),
            ],
            [8.0, 1.0],
        ],
    );
}

#[test]
fn spans_become_two_control_points_each() {
    let span = CubicBezierSpan {
        start: position([0.0, 1.0]),
        start_handle: position([0.25, 1.5]),
        end_handle: position([0.5, 2.0]),
        end: position([1.0, 4.0]),
    };
    let points = spans_to_points(vec![span, span]);
    assert_eq!(points.len(), 4);
    assert_eq!(points[0], point([0.0, 1.0], [0.25, 0.5]));
    assert_eq!(points[1], point([1.0, 4.0], [0.5, 2.0]));
    assert_eq!(points[2], points[0]);
    assert_eq!(points[3], points[1]);
}

// The grid and the hash.

#[test]
fn numbers_are_moved_to_the_nearest_millionth() {
    for (value, expected) in [
        (0.1, 0.1),
        (0.123_456_7, 0.123_457),
        (-0.123_456_4, -0.123_456),
        (0.000_000_4, 0.0),
        (0.000_000_5, 0.000_001),
        (-0.000_000_5, -0.000_001),
        (65535.0, 65535.0),
        (1e300, 1e300 * 1e6 / 1e6),
        (f64::INFINITY, f64::INFINITY),
    ] {
        assert_eq!(float(quantize(double(value))), expected);
        assert_eq!(
            float(quantize(double(value))).to_bits(),
            ((value * 1e6).round() / 1e6).to_bits()
        );
    }
    assert!(float(quantize(double(f64::NAN))).is_nan());
    assert_eq!(quantize(double(-0.000_000_4)).to_bits(), (-0.0_f64).to_bits());
    let mut points = vec![point([0.123_456_7, 0.2], [-0.123_456_7, 0.999_999_9])];
    round_curve_points(&mut points);
    assert_eq!(points, vec![point([0.123_457, 0.2], [-0.123_457, 1.0])]);
}

#[test]
fn grid_moves_moderate_numbers_little_and_only_once() {
    let mut value = 0.000_001_3;
    while value < 1e9 {
        for value in [value, -value] {
            let once = quantize(double(value));
            assert!((float(once) - value).abs() < 0.000_001);
            assert_eq!(quantize(once), once);
        }
        value *= 1.618;
    }
}

#[test]
fn hash_is_taken_of_the_grid_steps() {
    let points = [
        point([0.0, 0.5], [-0.25, 1.0]),
        point([1e300, -1e300], [f64::NAN, 0.000_000_4]),
    ];
    let mut expected: Vec<u8> = vec![];
    for step in [
        0_i64,
        500_000,
        -250_000,
        1_000_000,
        i64::MAX,
        i64::MIN,
        0,
        0,
    ] {
        expected.extend(step.to_le_bytes());
    }
    assert_eq!(hash_bytes(&points), expected);
    assert_eq!(
        curve_hash(&points),
        xxhash_rust::xxh32::xxh32(&expected, 0)
    );
    // The published digest of the empty input under the seed zero.
    assert_eq!(curve_hash(&[]), 0x02cc_5d05);
}

#[test]
fn hash_is_the_same_on_the_grid() {
    let mut points = vec![
        point([0.123_456_7, -0.765_432_1], [1.0 / 3.0, -2.0 / 3.0]),
        point([12_345.678_901_2, 0.000_000_49], [0.000_000_51, -0.3]),
    ];
    let before = points.clone();
    let hash = curve_hash(&points);
    round_curve_points(&mut points);
    assert_ne!(points, before);
    assert_eq!(curve_hash(&points), hash);
}

#[test]
fn hash_at_once_is_the_hash_piece_by_piece() {
    let payload: Vec<ControlPoint> = (0..40)
        .map(|i| point([i as f64 * 0.1, 0.2], [0.3, i as f64 * -0.01]))
        .collect();
    let points = with_customized_curve_header(payload);
    let hash = curve_hash(&points[3..]);
    assert_eq!(float(points[1].handle_offset.x), (hash >> 16) as f64);
    assert_eq!(float(points[2].handle_offset.x), (hash & 0xffff) as f64);
}

// Reading.

#[test]
fn too_few_regular_points_are_refused() {
    let points = [point([0.0, 0.0], [0.1, 0.1])];
    let refused = load_regular_curve_from_points(&points);
    assert_eq!(refused.err(), Some(CurveError::RegularTooShort));
    assert_eq!(
        parse_curve_from_track(&points).err(),
        Some(CurveError::RegularTooShort)
    );
    assert_eq!(
        parse_curve_from_track(&[]).err(),
        Some(CurveError::RegularTooShort)
    );
    assert_eq!(
        CurveError::RegularTooShort.message(),
        "A regular curve must contain at least two points"
    );
}

#[test]
fn points_without_the_marks_are_a_regular_curve() {
    let mark = point([0.0, 0.0], [1.0, 0.0]);
    let other = point([0.0, 0.0], [2.0, 0.0]);
    for points in [
        vec![mark, other],
        vec![point([0.1, 0.0], [1.0, 0.0]), mark, mark, mark],
        vec![mark, point([0.1, 0.0], [0.0, 0.0]), mark, mark],
        vec![mark, mark, point([0.0, 0.1], [0.0, 0.0]), mark],
        vec![point([0.0, f64::NAN], [1.0, 0.0]), mark, mark, mark],
    ] {
        assert!(matches!(
            load_customized_curve_from_points(&points),
            Ok(None)
        ));
        let curve = parse_curve_from_track(&points).expect("a regular curve is read");
        assert_eq!(curve.points.len(), points.len());
    }
}

#[test]
fn three_points_at_the_origin_are_a_stored_curve() {
    for handle in [[1.0, 0.0], [2.0, 0.0], [0.0, 0.0], [1.0, 0.5], [f64::NAN, -1.0]] {
        // A negative zero is the origin as well.
        let first = point([-0.0, 0.0], handle);
        let points = [first, hidden_data([0.0, 0.0], 2.0), hidden_data([0.0, -0.0], 3.0)];
        assert_eq!(
            load_customized_curve_from_points(&points).err(),
            Some(CurveError::HashMismatch {
                expected: 0x0002_0003,
                actual: 0x02cc_5d05
            })
        );
        assert!(parse_curve_from_track(&points).is_err());

        // The first handle is not read.
        let mut points = serialize(&mixed_curve()).expect("curve must be serialized");
        assert_eq!(points[0], point([0.0, 0.0], [1.0, 0.0]));
        let restored = parse_curve_from_track(&points).expect("a stored curve is read");
        points[0] = first;
        let curve = load_customized_curve_from_points(&points)
            .expect("a stored curve is read")
            .expect("a stored curve is found");
        assert_eq!(curve.points, restored.points);
        assert_eq!(curve.segments, restored.segments);
    }
}

#[test]
fn marks_without_segments_are_refused() {
    let points = with_customized_curve_header(vec![]);
    let refused = load_customized_curve_from_points(&points);
    assert_eq!(refused.err(), Some(CurveError::NoStoredSegments));
    assert_eq!(
        CurveError::NoStoredSegments.message(),
        "Customized curve does not contain any segments"
    );
}

fn refusal(payload: Vec<ControlPoint>) -> CurveError {
    let points = with_customized_curve_header(payload);
    let error = parse_curve_from_track(&points).expect_err("the points are refused");
    let hash = curve_hash(&points[3..]);
    assert_eq!(
        load_hashed_curve_from_points(&points, hash).err(),
        Some(error)
    );
    error
}

#[test]
fn segments_with_missing_data_are_refused() {
    let data = |value: f64| hidden_data([0.0, 0.0], value);
    for (flags, errors) in [
        (
            0.0,
            vec![
                CurveError::MissingBezierStartHandleX,
                CurveError::MissingBezierStartHandleY,
                CurveError::MissingBezierEndHandleX,
                CurveError::MissingBezierEndHandleY,
            ],
        ),
        (
            1.0,
            vec![
                CurveError::MissingElasticAmplitude,
                CurveError::MissingElasticFrequency,
                CurveError::MissingElasticDecay,
            ],
        ),
        (
            2.0,
            vec![
                CurveError::MissingBounceVertexX,
                CurveError::MissingBounceVertexY,
            ],
        ),
    ] {
        let mut payload = vec![data(2.0), data(flags)];
        for error in errors {
            assert_eq!(refusal(payload.clone()), error);
            payload.push(data(0.5));
        }
        assert_eq!(
            refusal(payload.clone()),
            CurveError::TruncatedSampledPoints
        );
        payload.push(data(0.5));
        payload.push(data(0.5));
        assert!(parse_curve_from_track(&with_customized_curve_header(payload)).is_ok());
    }
    assert_eq!(refusal(vec![data(2.0), data(3.0)]), CurveError::InvalidHandleType);
    assert_eq!(refusal(vec![data(2.0), data(7.0)]), CurveError::InvalidHandleType);
}

#[test]
fn sampled_points_are_counted() {
    let segment = |count: f64| {
        let mut payload = vec![hidden_data([0.0, 0.0], count), hidden_data([0.0, 0.0], 2.0)];
        for _ in 0..4 {
            payload.push(hidden_data([0.0, 0.0], 0.5));
        }
        payload
    };
    for count in [0.0, 1.0, 1.4, -3.0, f64::NAN] {
        assert_eq!(refusal(segment(count)), CurveError::TooFewSampledPoints);
    }
    assert_eq!(refusal(segment(3.0)), CurveError::TruncatedSampledPoints);
    for count in [1e30, f64::INFINITY] {
        assert_eq!(refusal(segment(count)), CurveError::PointCountOverflow);
    }
    assert!(parse_curve_from_track(&with_customized_curve_header(segment(2.4))).is_ok());
    assert!(parse_curve_from_track(&with_customized_curve_header(segment(1.5))).is_ok());
}

#[test]
fn flags_outside_sixteen_bits_are_saturated() {
    let segment = |flags: f64| {
        vec![
            hidden_data([0.0, 0.0], 2.0),
            hidden_data([0.0, 0.0], flags),
            hidden_data([0.0, 0.0], 0.5),
            hidden_data([0.0, 0.0], 0.5),
            hidden_data([0.0, 0.0], 0.5),
            hidden_data([0.0, 0.0], 0.5),
            hidden_data([0.0, 0.0], 0.5),
            hidden_data([0.0, 0.0], 0.5),
        ]
    };
    assert_eq!(refusal(segment(1e9)), CurveError::InvalidHandleType);
    let curve = parse_curve_from_track(&with_customized_curve_header(segment(-5.0)))
        .expect("a Bezier segment is read");
    assert_eq!(curve.segments[0].mode(), TimeControlMode::Bezier);
    assert!(!curve.points[0].handles_separated);
}

#[test]
fn disconnected_segments_are_refused() {
    let segment = |start: f64, end: f64| {
        vec![
            hidden_data([start, start], 2.0),
            hidden_data([start, start], 2.0),
            hidden_data([start, start], 0.5),
            hidden_data([start, start], 0.5),
            point([start, start], [0.1, 0.0]),
            point([end, end], [0.1, 0.0]),
        ]
    };
    let mut payload = segment(0.0, 0.5);
    payload.extend(segment(0.6, 1.0));
    assert_eq!(refusal(payload), CurveError::Disconnected);
    let mut payload = segment(0.0, 0.5);
    payload.extend(segment(0.5, 1.0));
    let curve = parse_curve_from_track(&with_customized_curve_header(payload))
        .expect("joined segments are read");
    assert_eq!(curve.points.len(), 3);
    assert_eq!(
        CurveError::Disconnected.message(),
        "Adjacent curve segments do not share an endpoint"
    );
}

#[test]
fn hash_mismatch_names_both_hashes() {
    let mut points = with_customized_curve_header(vec![]);
    points[1].handle_offset.x = double(0.0);
    points[2].handle_offset.x = double(26.0);
    let error = load_customized_curve_from_points(&points).expect_err("the hash is wrong");
    assert_eq!(
        error,
        CurveError::HashMismatch {
            expected: 0x1a,
            actual: 0x02cc_5d05
        }
    );
    assert_eq!(
        error.message(),
        format!("Curve hash mismatch: expected {:#x}, got {:#x}", 26, 0x02cc_5d05)
    );
    assert_eq!(
        error.message(),
        "Curve hash mismatch: expected 0x1a, got 0x2cc5d05"
    );
    points[1].handle_offset.x = double(1e12);
    points[2].handle_offset.x = double(-1.0);
    let error = load_customized_curve_from_points(&points).expect_err("the hash is wrong");
    assert_eq!(
        error.message(),
        "Curve hash mismatch: expected 0xffff0000, got 0x2cc5d05"
    );
}

#[test]
fn changed_payloads_are_refused_with_their_hash() {
    let points = serialize(&mixed_curve()).expect("curve must be serialized");
    let stored = curve_hash(&points[3..]);
    for at in 3..points.len() {
        let mut changed = points.clone();
        changed[at].handle_offset.y = double(float(changed[at].handle_offset.y) + 0.001);
        assert_eq!(
            parse_curve_from_track(&changed).err(),
            Some(CurveError::HashMismatch {
                expected: stored,
                actual: curve_hash(&changed[3..])
            })
        );
    }
}

// Storing.

#[test]
fn stored_curves_are_read_back_on_the_grid() {
    let curve = TimeControl {
        points: vec![
            curve_point([0.123_456_78, -0.5], true),
            curve_point([0.400_000_04, 0.25], false),
            curve_point([1.0, 3.141_592_653], true),
        ],
        segments: vec![
            bezier([0.2, 0.300_000_4], [0.3, 0.4]),
            bezier([0.5, 0.6], [0.999_999_96, 0.8]),
        ],
    };
    let points = serialize(&curve).expect("curve must be serialized");
    assert_eq!(points.len(), 3 + 8 * 2);
    let restored = parse_curve_from_track(&points).expect("a stored curve is read");
    let expected = TimeControl {
        points: vec![
            curve_point([0.123_457, -0.5], true),
            curve_point([0.4, 0.25], false),
            curve_point([1.0, 3.141_593], false),
        ],
        segments: vec![
            bezier([0.2, 0.3], [0.3, 0.4]),
            bezier([0.5, 0.6], [1.0, 0.8]),
        ],
    };
    assert_eq!(restored.points, expected.points);
    assert_eq!(restored.segments, expected.segments);
    let again = serialize(&restored).expect("a curve that was read is stored");
    let twice = parse_curve_from_track(&again).expect("a stored curve is read");
    assert_eq!(twice.points, restored.points);
    assert_eq!(twice.segments, restored.segments);
}

#[test]
fn regular_curves_are_stored_and_read_back_on_the_grid() {
    let points = [
        point([0.0, 0.0], [0.2, 0.3]),
        point([0.4, 0.500_000_4], [0.1, 0.2]),
        point([1.0, 1.0], [0.25, -0.1]),
    ];
    let regular = parse_curve_from_track(&points).expect("a regular curve is read");
    let stored = serialize(&regular).expect("a regular curve is stored");
    let restored = parse_curve_from_track(&stored).expect("a stored curve is read");
    assert_eq!(
        restored.points,
        [
            curve_point([0.0, 0.0], false),
            curve_point([0.4, 0.5], false),
            curve_point([1.0, 1.0], false),
        ]
    );
    assert_eq!(
        restored.segments,
        [
            bezier([0.2, 0.3], [0.3, 0.3]),
            bezier([0.5, 0.7], [0.75, 1.1]),
        ]
    );
}

#[test]
fn points_on_the_grid_are_read_back_exactly() {
    let curve = mixed_curve();
    for point in &curve.points {
        assert_eq!(quantize(point.position.x), point.position.x);
        assert_eq!(quantize(point.position.y), point.position.y);
    }
    let stored = serialize(&curve).expect("stored");
    let restored = load_customized_curve_from_points(&stored)
        .expect("valid")
        .expect("marked");
    assert_eq!(restored.points.len(), curve.points.len());
    for (actual, expected) in restored.points.iter().zip(&curve.points) {
        assert_eq!(actual.position, expected.position);
    }
}

#[test]
fn segments_that_miss_the_corners_by_little_are_read_back() {
    for reversed in [false, true] {
        let curve = TimeControl {
            points: vec![
                curve_point([0.0, -2.5], false),
                curve_point([0.4, 100.0], false),
                curve_point([0.6, 0.125], false),
                curve_point([1.0, 1.0], false),
            ],
            segments: vec![
                TimeControlSegment::Bounce(bounce(reversed, [0.05, 0.6])),
                TimeControlSegment::Elastic(elastic(reversed, 0.9, 2.75, 6.0)),
                TimeControlSegment::Bounce(bounce(reversed, [0.7, 0.4])),
            ],
        };
        let stored = serialize(&curve).expect("stored");
        let restored = load_customized_curve_from_points(&stored)
            .expect("valid")
            .expect("marked");
        for (actual, expected) in restored.points.iter().zip(&curve.points) {
            assert!(actual.position.equals(expected.position));
        }
        assert_eq!(restored.segments.len(), 3);
    }
}

#[test]
fn separation_is_kept_only_where_a_bezier_segment_leaves() {
    let curve = TimeControl {
        points: vec![
            curve_point([0.0, 0.0], true),
            curve_point([0.5, 0.5], true),
            curve_point([1.0, 1.0], true),
        ],
        segments: vec![
            TimeControlSegment::Bounce(bounce(true, [0.6, 0.8])),
            bezier([0.6, 0.6], [0.9, 0.9]),
        ],
    };
    let restored = parse_curve_from_track(&serialize(&curve).expect("stored")).expect("read");
    let separated: Vec<bool> = restored
        .points
        .iter()
        .map(|point| point.handles_separated)
        .collect();
    assert_eq!(separated, [false, true, false]);
    assert!(matches!(
        restored.segments[0],
        TimeControlSegment::Bounce(bounce) if bounce.reversed
    ));
}

#[test]
fn segments_that_do_not_meet_on_the_grid_are_refused_when_read() {
    let curve = TimeControl {
        points: vec![
            curve_point([0.0, 0.0], false),
            curve_point([0.5, f64::NAN], false),
            curve_point([1.0, 1.0], false),
        ],
        segments: vec![
            bezier([0.1, 0.1], [0.2, 0.2]),
            bezier([0.6, 0.6], [0.9, 0.9]),
        ],
    };
    let points = serialize(&curve).expect("a curve with any numbers is stored");
    assert_eq!(
        parse_curve_from_track(&points).err(),
        Some(CurveError::Disconnected)
    );
}

#[test]
fn curves_without_segments_are_not_stored() {
    let curve = TimeControl {
        points: vec![curve_point([0.0, 0.0], false)],
        segments: vec![],
    };
    assert_eq!(serialize(&curve), Err(CurveError::NothingToStore));
    assert_eq!(
        CurveError::NothingToStore.message(),
        "A customized curve must contain at least one segment"
    );
    let curve = TimeControl {
        points: vec![],
        segments: vec![bezier([0.2, 0.2], [0.8, 0.8])],
    };
    assert_eq!(serialize(&curve), Err(CurveError::Inconsistent));
    assert_eq!(
        CurveError::Inconsistent.message(),
        "Curve points and segments are inconsistent"
    );
}

#[test]
fn segments_need_a_storable_number_of_points() {
    let segment = TimeControlSegment::Elastic(default_elastic());
    let start = position([0.0, 0.0]);
    let end = position([1.0, 1.0]);
    let span = elastic_spans(&default_elastic()).expect("must be converted")[0];
    let store =
        |count: usize| serialize_segment_curve_points(&segment, start, end, &Ok(vec![span; count]));
    assert_eq!(store(0), Err(CurveError::PointCountOutOfRange));
    assert_eq!(store(32768), Err(CurveError::PointCountOutOfRange));
    assert_eq!(store(32767).expect("fits").len(), 65534);
    assert_eq!(
        serialize_segment_curve_points(&segment, start, end, &Err(CurveError::BounceEmpty)),
        Err(CurveError::BounceEmpty)
    );
    let bezier = bezier([0.25, 0.5], [0.75, 0.5]);
    assert_eq!(
        serialize_segment_curve_points(&bezier, start, end, &Err(CurveError::BounceEmpty)),
        Ok(vec![
            point([0.0, 0.0], [0.25, 0.5]),
            point([1.0, 1.0], [0.25, 0.5])
        ])
    );
}

#[test]
fn payload_is_laid_out_in_order() {
    let curve = TimeControl {
        points: vec![
            curve_point([0.0, 0.0], true),
            curve_point([1.0, 2.0], false),
        ],
        segments: vec![bezier([0.25, 0.5], [0.75, 1.5])],
    };
    let payload = serialize_curve_payload(&curve, &sample(&curve)).expect("stored");
    assert_eq!(
        payload,
        vec![
            hidden_data([0.0, 0.0], 2.0),
            hidden_data([0.0, 0.0], 4.0),
            hidden_data([0.0, 0.0], 0.25),
            hidden_data([0.0, 0.0], 0.5),
            hidden_data([0.0, 0.0], 0.75),
            hidden_data([0.0, 0.0], 1.5),
            point([0.0, 0.0], [0.25, 0.5]),
            point([1.0, 2.0], [0.25, 0.5]),
        ]
    );
    let points = mark_payload(payload.clone(), 0xabcd_1234);
    assert_eq!(points[0], point([0.0, 0.0], [1.0, 0.0]));
    assert_eq!(points[1], hidden_data([0.0, 0.0], 0xabcd as f64));
    assert_eq!(points[2], hidden_data([0.0, 0.0], 0x1234 as f64));
    assert_eq!(points[3..], payload[..]);
    assert_eq!(
        serialize(&curve).expect("stored"),
        with_customized_curve_header(payload)
    );
}

#[test]
fn hidden_points_hold_their_number_in_the_horizontal_handle() {
    assert_eq!(
        hidden_point(double(0.5), double(0.25), encode_u16(65535)),
        point([0.5, 0.25], [65535.0, 0.0])
    );
    assert_eq!(encode_u16(0), double(0.0));
    assert_eq!(encode_u16(1), double(1.0));
}
