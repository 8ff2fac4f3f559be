#[test]
fn distinct_genome_ref() {}

#[test]
fn default_crossover() {}
