use transformer_cpu::expr::{Buffer, Dims, Expr, Name, Range, Ranges};
use transformer_cpu::model::Sizes;
use transformer_cpu::pass::Scale;
use transformer_cpu::{DataType, ModelConfig, Prompt, Request, Step, Transformer};

fn tiny_llama() -> ModelConfig {
    ModelConfig {
        data_type: DataType::BF16,
        num_hidden_layers: 22,
        hidden_size: 2048,
        intermediate_size: 5632,
        num_attention_heads: 32,
        num_key_value_heads: 4,
        vocab_size: 32000,
        max_position_embeddings: 2048,
    }
}

fn small() -> ModelConfig {
    ModelConfig {
        data_type: DataType::F16,
        num_hidden_layers: 1,
        hidden_size: 8,
        intermediate_size: 6,
        num_attention_heads: 4,
        num_key_value_heads: 2,
        vocab_size: 10,
        max_position_embeddings: 16,
    }
}

fn decode(pos: u32) -> Request<u32> {
    Request {
        prompt: Prompt::Decode(1),
        cache: vec![pos; 22],
        pos,
    }
}

fn prefill(pos: u32, len: usize) -> Request<u32> {
    Request {
        prompt: Prompt::Prefill(vec![0; len]),
        cache: vec![pos; 22],
        pos,
    }
}

fn whole(name: Name) -> Expr {
    Expr::Whole(name)
}

fn part(name: Name, lens: Dims, index: usize) -> Expr {
    Expr::Part {
        of: Box::new(whole(name)),
        lens,
        index,
    }
}

fn reshape(of: Expr, dims: Dims) -> Expr {
    Expr::Reshape(Box::new(of), dims)
}

fn transpose(of: Expr, axes: Dims) -> Expr {
    Expr::Transpose(Box::new(of), axes)
}

fn middle(of: Expr, from: u32, take: u32) -> Expr {
    Expr::Slice(
        Box::new(of),
        Ranges::Three(Range::All, Range::Span { from, take }, Range::All),
    )
}

#[test]
fn test_build() {
    let transformer = Transformer::new(tiny_llama());
    assert_eq!(transformer.model().data_type, DataType::F16);
    assert_eq!(transformer.model().num_hidden_layers, 22);
    assert_eq!(transformer.max_seq_len(), 2048);
}

#[test]
fn weights_are_cast_where_needed() {
    let with = |data_type| {
        Transformer::new(ModelConfig {
            data_type,
            ..small()
        })
        .model()
        .data_type
    };
    assert_eq!(with(DataType::BF16), DataType::F16);
    assert_eq!(with(DataType::F32), DataType::F16);
    assert_eq!(with(DataType::F16), DataType::F16);
    assert_eq!(with(DataType::U32), DataType::U32);
}

#[test]
fn axis_lengths() {
    assert_eq!(
        tiny_llama().sizes(),
        Some(Sizes {
            d: 2048,
            nh: 32,
            nkvh: 4,
            dh: 64,
            dkv: 256,
            head_group: 8,
            di: 5632,
            voc: 32000,
        })
    );
    assert_eq!(
        ModelConfig {
            num_attention_heads: 0,
            ..small()
        }
        .sizes(),
        None
    );
    assert_eq!(
        ModelConfig {
            num_key_value_heads: 0,
            ..small()
        }
        .sizes(),
        None
    );
    assert_eq!(
        ModelConfig {
            hidden_size: 4294967295,
            num_attention_heads: 1,
            ..small()
        }
        .sizes(),
        None
    );
}

#[test]
fn batches_that_cannot_be_taken() {
    let transformer = Transformer::new(small());
    let none: Vec<Request<u32>> = vec![];
    assert!(!transformer.can_decode(&none));
    assert!(transformer.can_decode(&vec![decode(0)]));
    assert!(!transformer.can_decode(&vec![decode(u32::MAX)]));
    let wide = Transformer::new(ModelConfig {
        intermediate_size: 2147483648,
        ..small()
    });
    assert!(!wide.can_decode(&vec![decode(0)]));
    let headless = Transformer::new(ModelConfig {
        num_attention_heads: 0,
        ..small()
    });
    assert!(!headless.can_decode(&vec![decode(0)]));
    let wordy = Transformer::new(ModelConfig {
        vocab_size: 4294967295,
        ..small()
    });
    assert!(wordy.can_decode(&vec![decode(0)]));
    assert!(!wordy.can_decode(&vec![decode(0), decode(1)]));
}

#[test]
fn caches_that_lack_layers() {
    let transformer = Transformer::new(tiny_llama());
    let mut batch = vec![decode(3), decode(4)];
    assert!(transformer.can_decode(&batch));
    batch[1].cache.push(0);
    assert!(transformer.can_decode(&batch));
    batch[0].cache.pop();
    assert!(!transformer.can_decode(&batch));
}

#[test]
fn caches_do_not_change_the_pass() {
    let transformer = Transformer::new(small());
    let a = vec![prefill(2, 3), decode(5)];
    let mut b = vec![prefill(2, 3), decode(5)];
    b[0].cache = vec![1, 2, 3];
    b[1].cache = vec![4];
    assert!(transformer.can_decode(&a) && transformer.can_decode(&b));
    let (a, b) = (transformer.decode(a), transformer.decode(b));
    assert_eq!(a.steps, b.steps);
    assert_eq!(a.positions, b.positions);
    assert_eq!(a.x2.shape.as_slice(), b.x2.shape.as_slice());
    assert_eq!((a.q_buf, a.att_buf), (b.q_buf, b.att_buf));
}

#[test]
fn storage_of_a_pass() {
    let transformer = Transformer::new(small());
    let batch = vec![prefill(2, 3), decode(5)];
    assert!(transformer.can_decode(&batch));
    let pass = transformer.decode(batch);
    assert_eq!(pass.num_decoding, 1);
    assert_eq!(pass.requests[0].pos, 5);
    assert_eq!(pass.requests[1].pos, 2);
    assert_eq!(pass.positions, vec![5, 2, 3, 4]);
    assert_eq!(pass.x0.shape.as_slice(), &[4, 8]);
    assert_eq!(pass.x0.bytes, 64);
    assert_eq!(pass.x1.shape.as_slice(), &[4, 8]);
    assert_eq!(pass.qkv.shape.as_slice(), &[4, 16]);
    assert_eq!(pass.x2.shape.as_slice(), &[2, 8, 2]);
    assert_eq!(pass.gate_up.shape.as_slice(), &[4, 12]);
    assert_eq!(pass.logits.shape.as_slice(), &[1, 10]);
    assert_eq!(pass.logits.bytes, 20);
    assert_eq!(pass.q_buf, 4 * 3 * 2 * 2);
    assert_eq!(pass.att_buf, 2 * 2 * 3 * 6 * 2);
}

#[test]
fn calls_of_a_pass_over_one_request() {
    let transformer = Transformer::new(small());
    let batch = vec![decode(5)];
    assert!(transformer.can_decode(&batch));
    let pass = transformer.decode(batch);
    let qkv = Dims::Three(8, 4, 4);
    let q = || reshape(part(Name::Qkv, qkv, 0), Dims::Three(1, 4, 2));
    let k = || reshape(part(Name::Qkv, qkv, 1), Dims::Three(1, 2, 2));
    let v = || reshape(part(Name::Qkv, qkv, 2), Dims::Three(1, 2, 2));
    let keys = Name::KeyCache {
        request: 0,
        layer: 0,
    };
    let values = Name::ValueCache {
        request: 0,
        layer: 0,
    };
    let heads = Dims::Three(1, 0, 2);
    let q_att = || Expr::Over(Buffer::Query, Dims::Three(4, 1, 2));
    let att = || Expr::Over(Buffer::Attention, Dims::Three(2, 2, 6));
    let halves = Dims::Two(6, 6);
    let weight = |name| transpose(whole(name), Dims::Two(1, 0));
    let rows = || {
        Expr::Slice(
            Box::new(whole(Name::X0)),
            Ranges::Two(Range::Span { from: 0, take: 1 }, Range::All),
        )
    };
    let mat_mul = |out, accumulate, a, b, scale| Step::MatMul {
        out,
        accumulate,
        a,
        b,
        scale,
    };
    let expected = vec![
        Step::Gather {
            out: whole(Name::X0),
            table: whole(Name::EmbedTokens),
        },
        Step::RmsNorm {
            out: whole(Name::X1),
            input: whole(Name::X0),
            weight: whole(Name::InputLayernorm(0)),
        },
        mat_mul(
            whole(Name::Qkv),
            false,
            whole(Name::X1),
            weight(Name::WQkv(0)),
            Scale::One,
        ),
        Step::RotaryEmbedding { x: q() },
        Step::RotaryEmbedding { x: k() },
        Step::Reform {
            from: middle(transpose(q(), heads), 0, 1),
            to: q_att(),
        },
        Step::Reform {
            from: middle(transpose(k(), heads), 0, 1),
            to: middle(whole(keys), 5, 1),
        },
        Step::Reform {
            from: middle(transpose(v(), heads), 0, 1),
            to: middle(whole(values), 5, 1),
        },
        mat_mul(
            att(),
            false,
            reshape(q_att(), Dims::Three(2, 2, 2)),
            transpose(middle(whole(keys), 0, 6), Dims::Three(0, 2, 1)),
            Scale::HeadDim,
        ),
        Step::Softmax {
            x: reshape(att(), Dims::Three(4, 1, 6)),
        },
        mat_mul(
            whole(Name::X2),
            false,
            reshape(
                reshape(att(), Dims::Three(4, 1, 6)),
                Dims::Three(2, 2, 6),
            ),
            middle(whole(values), 0, 6),
            Scale::One,
        ),
        Step::Reform {
            from: transpose(reshape(whole(Name::X2), Dims::Three(4, 1, 2)), heads),
            to: reshape(whole(Name::X1), Dims::Three(1, 4, 2)),
        },
        mat_mul(
            whole(Name::X0),
            true,
            whole(Name::X1),
            weight(Name::SelfAttnOProj(0)),
            Scale::One,
        ),
        Step::RmsNorm {
            out: whole(Name::X1),
            input: whole(Name::X0),
            weight: whole(Name::PostAttentionLayernorm(0)),
        },
        mat_mul(
            whole(Name::GateUp),
            false,
            whole(Name::X1),
            weight(Name::MlpGateUp(0)),
            Scale::One,
        ),
        Step::Swiglu {
            gate: part(Name::GateUp, halves, 0),
            up: part(Name::GateUp, halves, 1),
        },
        mat_mul(
            whole(Name::X0),
            true,
            part(Name::GateUp, halves, 0),
            weight(Name::MlpDown(0)),
            Scale::One,
        ),
        Step::RmsNormInplace {
            x: rows(),
            weight: whole(Name::ModelNorm),
        },
        mat_mul(
            whole(Name::Logits),
            false,
            rows(),
            weight(Name::LmHead),
            Scale::One,
        ),
    ];
    assert_eq!(pass.steps, expected);
}

#[test]
fn requests_take_their_rows_in_turn() {
    let transformer = Transformer::new(small());
    let batch = vec![decode(5), prefill(2, 3)];
    assert!(transformer.can_decode(&batch));
    let pass = transformer.decode(batch);
    let keys = Name::KeyCache {
        request: 1,
        layer: 0,
    };
    let k = reshape(part(Name::Qkv, Dims::Three(8, 4, 4), 1), Dims::Three(4, 2, 2));
    let expected = Step::Reform {
        from: middle(transpose(k, Dims::Three(1, 0, 2)), 1, 3),
        to: middle(whole(keys), 2, 3),
    };
    assert_eq!(pass.steps[1 + 4 + 7 + 1], expected);
}

#[test]
fn number_of_calls() {
    let transformer = Transformer::new(tiny_llama());
    let batch = vec![decode(5), prefill(2, 3)];
    assert!(transformer.can_decode(&batch));
    assert_eq!(transformer.decode(batch).steps.len(), 1 + 22 * (9 + 7 * 2) + 2);
    let batch = vec![prefill(2, 3)];
    assert!(transformer.can_decode(&batch));
    let pass = transformer.decode(batch);
    assert_eq!(pass.steps.len(), 1 + 22 * (9 + 7));
    assert_eq!(pass.logits.shape.as_slice(), &[0, 32000]);
    assert_eq!(pass.logits.bytes, 0);
}

#[test]
fn decoding_requests_own_the_first_rows() {
    let transformer = Transformer::new(small());
    let batch = vec![prefill(1, 2), decode(8), prefill(3, 1), decode(9)];
    assert!(transformer.can_decode(&batch));
    let pass = transformer.decode(batch);
    assert_eq!(pass.num_decoding, 2);
    assert_eq!(pass.positions, vec![9, 8, 3, 1, 2]);
    assert_eq!(pass.logits.shape.as_slice(), &[2, 10]);
}

fn base(expr: &Expr) -> Option<Name> {
    match expr {
        Expr::Whole(name) => Some(*name),
        Expr::Over(_, _) => None,
        Expr::Part { of, .. } => base(of),
        Expr::Reshape(of, _) => base(of),
        Expr::Transpose(of, _) => base(of),
        Expr::Slice(of, _) => base(of),
    }
}

fn output(step: &Step) -> &Expr {
    match step {
        Step::Gather { out, .. } => out,
        Step::RmsNorm { out, .. } => out,
        Step::RmsNormInplace { x, .. } => x,
        Step::MatMul { out, .. } => out,
        Step::RotaryEmbedding { x } => x,
        Step::Reform { to, .. } => to,
        Step::Softmax { x } => x,
        Step::Swiglu { gate, .. } => gate,
    }
}

#[test]
fn pass_writes_only_what_is_its_own() {
    let transformer = Transformer::new(small());
    let batch = vec![prefill(1, 2), decode(8), prefill(3, 1)];
    assert!(transformer.can_decode(&batch));
    let pass = transformer.decode(batch);
    let mut cached = 0;
    for step in &pass.steps {
        match base(output(step)) {
            None => {}
            Some(Name::X0 | Name::X1 | Name::X2) => {}
            Some(Name::Qkv | Name::GateUp | Name::Logits) => {}
            Some(
                name @ (Name::KeyCache { request, .. } | Name::ValueCache { request, .. }),
            ) => {
                let r = &pass.requests[request];
                assert_eq!(output(step), &middle(whole(name), r.pos, r.seq_len()));
                cached += 1;
            }
            Some(_) => panic!("a weight is written"),
        }
    }
    assert_eq!(cached, 6);
}

fn list(dims: &Dims) -> Vec<u32> {
    match *dims {
        Dims::Two(a, b) => vec![a, b],
        Dims::Three(a, b, c) => vec![a, b, c],
    }
}

// Shapes of the tensors of a pass of the small model over one request with
// three new tokens after two earlier ones, and caches of sixteen tokens.
fn shape(expr: &Expr) -> Vec<u32> {
    match expr {
        Expr::Whole(name) => match name {
            Name::X0 | Name::X1 => vec![3, 8],
            Name::X2 => vec![2, 6, 2],
            Name::Qkv => vec![3, 16],
            Name::GateUp => vec![3, 12],
            Name::EmbedTokens => vec![10, 8],
            Name::InputLayernorm(_) | Name::PostAttentionLayernorm(_) => vec![8],
            Name::WQkv(_) => vec![16, 8],
            Name::SelfAttnOProj(_) => vec![8, 8],
            Name::MlpGateUp(_) => vec![12, 8],
            Name::MlpDown(_) => vec![8, 6],
            Name::KeyCache { .. } | Name::ValueCache { .. } => vec![2, 16, 2],
            Name::ModelNorm | Name::LmHead | Name::Logits => unreachable!(),
        },
        Expr::Over(buffer, dims) => {
            let room = match buffer {
                Buffer::Query => 4 * 3 * 2,
                Buffer::Attention => 2 * 2 * 3 * 5,
            };
            assert!(list(dims).iter().product::<u32>() <= room);
            list(dims)
        }
        Expr::Part { of, lens, index } => {
            let s = shape(of);
            assert_eq!(list(lens).iter().sum::<u32>(), s[1]);
            vec![s[0], list(lens)[*index]]
        }
        Expr::Reshape(of, dims) => {
            let s = shape(of);
            assert_eq!(
                s.iter().product::<u32>(),
                list(dims).iter().product::<u32>()
            );
            list(dims)
        }
        Expr::Transpose(of, axes) => {
            let s = shape(of);
            list(axes).iter().map(|&i| s[i as usize]).collect()
        }
        Expr::Slice(of, ranges) => {
            let ranges = match *ranges {
                Ranges::Two(a, b) => vec![a, b],
                Ranges::Three(a, b, c) => vec![a, b, c],
            };
            let s = shape(of);
            assert_eq!(s.len(), ranges.len());
            ranges
                .iter()
                .zip(s)
                .map(|(range, len)| match *range {
                    Range::All => len,
                    Range::Span { from, take } => {
                        assert!(from + take <= len);
                        take
                    }
                })
                .collect()
        }
    }
}

#[test]
fn operands_agree_for_one_request() {
    let transformer = Transformer::new(small());
    let batch = vec![prefill(2, 3)];
    assert!(transformer.can_decode(&batch));
    let pass = transformer.decode(batch);
    assert_eq!(pass.q_buf, 4 * 3 * 2 * 2);
    assert_eq!(pass.att_buf, 2 * 2 * 3 * 5 * 2);
    for step in &pass.steps {
        match step {
            Step::Gather { out, table } => assert_eq!(shape(out)[1], shape(table)[1]),
            Step::RmsNorm { out, input, weight } => {
                assert_eq!(shape(out), shape(input));
                assert_eq!(shape(weight), vec![shape(out)[1]]);
            }
            Step::MatMul { out, a, b, .. } => {
                let (o, a, b) = (shape(out), shape(a), shape(b));
                let n = o.len();
                assert_eq!((a.len(), b.len()), (n, n));
                if n == 3 {
                    assert_eq!((a[0], b[0]), (o[0], o[0]));
                }
                assert_eq!((a[n - 2], b[n - 1]), (o[n - 2], o[n - 1]));
                assert_eq!(a[n - 1], b[n - 2]);
            }
            Step::RotaryEmbedding { x } => assert_eq!(shape(x)[0], 3),
            Step::Reform { from, to } => assert_eq!(shape(from), shape(to)),
            Step::Softmax { x } => assert_eq!(shape(x), vec![4, 3, 5]),
            Step::Swiglu { gate, up } => assert_eq!(shape(gate), shape(up)),
            Step::RmsNormInplace { .. } => panic!("no request decodes"),
        }
    }
}
