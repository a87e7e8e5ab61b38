use std::collections::hash_map::DefaultHasher;
use std::collections::BTreeMap;
use std::hash::{Hash, Hasher};
use transformer_cpu::expr::{Dims, Expr, Name, Range, Ranges};
use transformer_cpu::{DataType, ModelConfig, Pass, Prompt, Request, Step, Transformer};

const ROOM: u32 = 12;

fn plan() -> Pass<u32> {
    let transformer = Transformer::new(ModelConfig {
        data_type: DataType::F16,
        num_hidden_layers: 2,
        hidden_size: 8,
        intermediate_size: 6,
        num_attention_heads: 4,
        num_key_value_heads: 2,
        vocab_size: 10,
        max_position_embeddings: 16,
    });
    let batch = vec![Request {
        prompt: Prompt::Decode(1),
        cache: vec![0, 0],
        pos: 5,
    }];
    assert!(transformer.can_decode(&batch));
    transformer.decode(batch)
}

fn slot(name: &Name, t: u32) -> String {
    format!("{:?} slot {}", name, t)
}

fn is_cache(name: &Name) -> bool {
    matches!(name, Name::KeyCache { .. } | Name::ValueCache { .. })
}

fn cells(expr: &Expr) -> Vec<String> {
    match expr {
        Expr::Whole(name) if is_cache(name) => (0..ROOM).map(|t| slot(name, t)).collect(),
        Expr::Whole(name) => vec![format!("{:?}", name)],
        Expr::Over(buffer, dims) => {
            let len = match *dims {
                Dims::Two(a, b) => a * b,
                Dims::Three(a, b, c) => a * b * c,
            };
            (0..len).map(|i| format!("{:?} {}", buffer, i)).collect()
        }
        Expr::Part { of, .. } => cells(of),
        Expr::Reshape(of, _) => cells(of),
        Expr::Transpose(of, _) => cells(of),
        Expr::Slice(of, Ranges::Three(_, Range::Span { from, take }, _)) => match &**of {
            Expr::Whole(name) if is_cache(name) => {
                (*from..*from + *take).map(|t| slot(name, t)).collect()
            }
            _ => cells(of),
        },
        Expr::Slice(of, _) => cells(of),
    }
}

// Runs the calls with kernels that mix everything that they read.
fn run(pass: &Pass<u32>, memory: &mut BTreeMap<String, u64>) {
    for step in &pass.steps {
        let (out, inputs): (&Expr, Vec<&Expr>) = match step {
            Step::Gather { out, table } => (out, vec![table]),
            Step::RmsNorm { out, input, weight } => (out, vec![input, weight]),
            Step::RmsNormInplace { x, weight } => (x, vec![x, weight]),
            Step::MatMul {
                out,
                accumulate: true,
                a,
                b,
                ..
            } => (out, vec![a, b, out]),
            Step::MatMul { out, a, b, .. } => (out, vec![a, b]),
            Step::RotaryEmbedding { x } => (x, vec![x]),
            Step::Reform { from, to } => (to, vec![from]),
            Step::Softmax { x } => (x, vec![x]),
            Step::Swiglu { gate, up } => (gate, vec![gate, up]),
        };
        let mut seen = DefaultHasher::new();
        for input in inputs {
            for cell in cells(input) {
                memory.get(&cell).copied().unwrap_or(0).hash(&mut seen);
            }
        }
        for cell in cells(out) {
            let mut value = seen.clone();
            cell.hash(&mut value);
            memory.insert(cell, value.finish());
        }
    }
}

fn caches() -> Vec<Name> {
    let mut names = vec![];
    for layer in 0..2 {
        names.push(Name::KeyCache { request: 0, layer });
        names.push(Name::ValueCache { request: 0, layer });
    }
    names
}

fn start() -> BTreeMap<String, u64> {
    let mut memory = BTreeMap::new();
    for name in caches() {
        for t in 0..5 {
            memory.insert(slot(&name, t), 100 + t as u64);
        }
    }
    memory
}

#[test]
fn stale_memory_has_no_influence() {
    let pass = plan();
    let mut clean = start();
    let mut stale = start();
    for name in caches() {
        for t in 5..ROOM {
            stale.insert(slot(&name, t), 9);
        }
    }
    stale.insert("X1".to_string(), 9);
    stale.insert("Logits".to_string(), 9);
    stale.insert("Attention 0".to_string(), 9);
    run(&pass, &mut clean);
    run(&pass, &mut stale);
    assert_eq!(clean["Logits"], stale["Logits"]);
    for name in caches() {
        for t in 0..6 {
            assert_eq!(clean[&slot(&name, t)], stale[&slot(&name, t)]);
        }
        for t in 6..ROOM {
            assert_eq!(stale[&slot(&name, t)], 9);
        }
    }
}

#[test]
fn earlier_tokens_have_influence() {
    let pass = plan();
    let mut one = start();
    let mut other = start();
    other.insert(slot(&caches()[1], 4), 7);
    run(&pass, &mut one);
    run(&pass, &mut other);
    assert_ne!(one["Logits"], other["Logits"]);
}

#[test]
fn repeated_pass_changes_nothing() {
    let mut first = start();
    run(&plan(), &mut first);
    let mut second = BTreeMap::new();
    for name in caches() {
        for t in 0..6 {
            second.insert(slot(&name, t), first[&slot(&name, t)]);
        }
    }
    run(&plan(), &mut second);
    assert_eq!(first["Logits"], second["Logits"]);
    for name in caches() {
        for t in 0..6 {
            assert_eq!(first[&slot(&name, t)], second[&slot(&name, t)]);
        }
    }
}

#[test]
fn caches_are_read_after_the_new_tokens_are_copied() {
    let pass = plan();
    for name in caches() {
        let mut copied = 0;
        for step in &pass.steps {
            if let Step::Reform { to, .. } = step {
                if cells(to) == vec![slot(&name, 5)] {
                    copied += 1;
                }
            }
            if let Step::MatMul { b, .. } = step {
                if cells(b).contains(&slot(&name, 0)) {
                    assert_eq!(copied, 1);
                    assert_eq!(cells(b).len(), 6);
                }
            }
        }
        assert_eq!(copied, 1);
    }
}
