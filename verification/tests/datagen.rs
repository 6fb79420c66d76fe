use std::collections::BTreeSet;

use p1689::datagen::{GraphGenerator, GraphGeneratorConfig, CHACHA8RNG_SEED};
use p1689::r5::DepFile;
use rand::distributions::{Bernoulli, Distribution};
use rand::{Rng, RngCore, SeedableRng};

fn modules_are_provided(file: &DepFile<'_>) -> bool {
    let provided: BTreeSet<String> = file
        .rules
        .iter()
        .flat_map(|r| r.provides.iter().map(|p| p.desc.logical_name().into_owned()))
        .collect();
    file.rules
        .iter()
        .flat_map(|r| r.requires.iter())
        .all(|r| provided.contains(r.desc.logical_name().as_ref()))
}

#[test]
fn datagen_files_provide_every_module_they_require() {
    let rng = &mut rand_chacha::ChaCha8Rng::seed_from_u64(CHACHA8RNG_SEED);
    for node_count in [0u8, 1, 2, 5, 16] {
        for more_escapes in [false, true] {
            let config = GraphGeneratorConfig::default().node_count(node_count).more_escapes(more_escapes);
            let file = GraphGenerator::gen_dep_file(rng, config);
            assert_eq!(1, file.version);
            assert_eq!(None, file.revision);
            assert!(file.rules.len() <= usize::from(node_count) + 1);
            assert!(modules_are_provided(&file));
        }
    }
}

#[test]
fn datagen_runs_draw_every_rule_with_an_object_output() {
    let rng = &mut rand_chacha::ChaCha8Rng::seed_from_u64(CHACHA8RNG_SEED);
    let data = [7u8; 512];
    let mut u = arbitrary::Unstructured::new(&data);
    let generator = GraphGeneratorConfig::default().node_count(9).build(rng);
    let (rules, graph) = generator.run(rng, &mut u);
    assert_eq!(10, rules.len());
    for rule in &rules {
        assert!(rule.primary_output.as_deref().is_some_and(|p| p.ends_with(".o")));
        assert!(rule.work_directory.is_none() && rule.outputs.is_empty());
    }
    for (src, dst, name) in graph.all_edges() {
        assert!(rules[usize::from(src)].provides.iter().any(|p| p.desc.logical_name() == name.as_str()));
        assert!(rules[usize::from(dst)].requires.iter().any(|r| r.desc.logical_name() == name.as_str()));
    }
}

#[test]
fn datagen_is_reproducible_from_its_seed() {
    let config = GraphGeneratorConfig::default().node_count(6);
    let a = GraphGenerator::gen_dep_file(&mut rand_chacha::ChaCha8Rng::seed_from_u64(CHACHA8RNG_SEED), config);
    let b = GraphGenerator::gen_dep_file(&mut rand_chacha::ChaCha8Rng::seed_from_u64(CHACHA8RNG_SEED), config);
    assert_eq!(format!("{a:?}"), format!("{b:?}"));
}

#[test]
fn test() {
    let rng = &mut rand_chacha::ChaCha8Rng::seed_from_u64(CHACHA8RNG_SEED);
    let mut bytes = vec![0u8; 8192];
    rng.fill_bytes(&mut bytes);
    let mut u = arbitrary::Unstructured::new(&bytes);

    let config = GraphGeneratorConfig::default().node_count(rng.gen_range(0u8..=16u8));

    let generator = GraphGenerator::new(rng, config);
    let (info_mem, graph) = generator.run(rng, &mut u);

    for key in 0..info_mem.len() {
        for (src, dst, _weight) in graph.edges(u8::try_from(key).unwrap()) {
            let _name_src = info_mem[usize::from(src)].primary_output.as_deref().unwrap();
            let _name_dst = info_mem[usize::from(dst)].primary_output.as_deref().unwrap();
        }
    }

    let select = Bernoulli::from_ratio(1, 4).unwrap().sample(rng);
    let rules: Vec<_> = info_mem
        .into_iter()
        .filter(|desc| !(desc.provides.is_empty() && desc.requires.is_empty()) || select)
        .collect();
    let dep_file = DepFile { version: 1, revision: None, rules };
    assert!(modules_are_provided(&dep_file));
}

#[test]
fn datagen_names_are_lower_case_words_joined_by_hyphens() {
    let rng = &mut rand_chacha::ChaCha8Rng::seed_from_u64(CHACHA8RNG_SEED);
    let config = GraphGeneratorConfig::default().node_count(16).more_escapes(false);
    let file = GraphGenerator::gen_dep_file(rng, config);
    let mut hyphenated = 0;
    for rule in &file.rules {
        let output = rule.primary_output.as_deref().unwrap();
        assert!(output.ends_with(".o"));
        assert!(!output.chars().any(|c| c.is_whitespace() || c.is_ascii_uppercase()));
        if output.contains('-') {
            hyphenated += 1;
        }
    }
    assert!(hyphenated > 0);
}

#[test]
fn datagen_draws_many_files_from_one_seed() {
    let rng = &mut rand_chacha::ChaCha8Rng::seed_from_u64(CHACHA8RNG_SEED);
    let config = GraphGeneratorConfig::default().node_count(rng.gen_range(1u8..=16u8));
    for _ in 0..8 {
        let file = GraphGenerator::gen_dep_file(rng, config);
        assert!(!file.rules.is_empty());
        assert!(modules_are_provided(&file));
    }
}
