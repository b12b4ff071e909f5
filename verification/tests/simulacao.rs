use cache_simulator::cache::Cache;
use cache_simulator::memoria::{Memoria, MemoriaContadora, RAM};
use cache_simulator::politica_substituicao::random::Random;

#[test]
fn ram_devolve_um_byte_fixo() {
    let mut ram = RAM::new();
    assert_eq!(ram.read(123), vec![4]);
    ram.write(9, 123);
    assert_eq!(ram.read(123), vec![4]);
}

#[test]
fn memoria_contadora_conta_leituras() {
    let mut memoria = MemoriaContadora::new(7, 4);
    assert_eq!(memoria.leituras(), 0);
    assert_eq!(memoria.read(0), vec![7, 7, 7, 7]);
    assert_eq!(memoria.read(10), vec![7, 7, 7, 7]);
    memoria.write(1, 0);
    assert_eq!(memoria.leituras(), 2);
}

#[test]
fn cenario_completo_enderecado_a_byte() {
    // nsets=32, bsize=4, assoc=1, 32-bit byte-addressed geometry, replaying
    // the trace 15, 268, 140, 480, 15, 14, 15, 140.
    let conf = Cache::new(32, 4, 1, 32, true, 1, RAM::new());
    let mut cache = Random::new(conf);
    let trace: [u32; 8] = [15, 268, 140, 480, 15, 14, 15, 140];
    let mut acessos: u32 = 0;
    for endereco in trace {
        cache.leitura(endereco);
        acessos += 1;
        let historico = cache.historico_acessos();
        assert_eq!(historico.total_acessos(), acessos);
        assert_eq!(historico.get_hits() + historico.get_misses(), acessos);
    }
    let historico = cache.historico_acessos();
    assert_eq!(historico.get_hits(), 2);
    assert_eq!(historico.get_misses(), 6);
    assert_eq!(historico.get_misses_compulsorios(), 2);
    assert_eq!(historico.get_misses_conflito(), 4);
    assert_eq!(historico.get_misses_capacidade(), 0);

    let taxa_de_hit = historico.get_hits() as f32 / historico.total_acessos() as f32;
    assert_eq!(taxa_de_hit, 0.25);
    let fracao_compulsorio =
        historico.get_misses_compulsorios() as f32 / historico.get_misses() as f32;
    let fracao_conflito = historico.get_misses_conflito() as f32 / historico.get_misses() as f32;
    let fracao_capacidade =
        historico.get_misses_capacidade() as f32 / historico.get_misses() as f32;
    assert_eq!(fracao_compulsorio, 2.0f32 / 6.0f32);
    assert_eq!(fracao_conflito, 4.0f32 / 6.0f32);
    assert_eq!(fracao_capacidade, 0.0);
}

#[test]
fn falta_enderecada_a_palavra_emite_uma_leitura_por_palavra() {
    // with bsize=8 and 4-byte words, one miss fills the block in exactly
    // 2 reads of the level below, not 8
    let memoria = MemoriaContadora::new(7, 4);
    let conf = Cache::new(4, 8, 1, 32, false, 4, memoria);
    let mut cache = Random::new(conf);
    let resultado = cache.leitura(0);
    assert_eq!(resultado, vec![7, 7, 7, 7]);
    assert_eq!(cache.cache_conf().nivel_inferior().leituras(), 2);
    assert_eq!(cache.historico_acessos().get_misses_compulsorios(), 1);

    // a hit issues no further read downward
    let resultado = cache.leitura(1);
    assert_eq!(resultado, vec![7, 7, 7, 7]);
    assert_eq!(cache.cache_conf().nivel_inferior().leituras(), 2);
    assert_eq!(cache.historico_acessos().get_hits(), 1);
}

#[test]
fn dados_vem_do_bloco_guardado() {
    let memoria = MemoriaContadora::new(-3, 1);
    let conf = Cache::new(4, 4, 2, 32, true, 1, memoria);
    let mut cache = Random::new(conf);
    assert_eq!(cache.leitura(5), vec![-3]);
    // the same block served from the cache keeps the bytes it was filled with
    assert_eq!(cache.leitura(6), vec![-3]);
    assert_eq!(cache.historico_acessos().get_hits(), 1);
    assert_eq!(cache.historico_acessos().get_misses(), 1);
}

#[test]
fn bloco_presente_nunca_paga_segundo_miss_compulsorio() {
    let conf = Cache::new(32, 4, 1, 32, true, 1, RAM::new());
    let mut cache = Random::new(conf);
    cache.leitura(15);
    cache.leitura(15);
    cache.leitura(14);
    let historico = cache.historico_acessos();
    assert_eq!(historico.get_misses_compulsorios(), 1);
    assert_eq!(historico.get_hits(), 2);
}

#[test]
fn miss_em_conjunto_ocupado_nao_e_compulsorio() {
    // direct-mapped set: a second tag in an occupied set is a conflict miss,
    // and evicting the first makes its return another conflict miss
    let conf = Cache::new(32, 4, 1, 32, true, 1, RAM::new());
    let mut cache = Random::new(conf);
    cache.leitura(15); // compulsory
    cache.leitura(143); // same set (index 3), different tag: conflict
    cache.leitura(15); // evicted meanwhile: conflict again, not compulsory
    let historico = cache.historico_acessos();
    assert_eq!(historico.get_misses_compulsorios(), 1);
    assert_eq!(historico.get_misses_conflito(), 2);
    assert_eq!(historico.get_misses_capacidade(), 0);
}

#[test]
fn cache_cheia_so_sofre_miss_de_capacidade() {
    // a one-line cache fills on the first access; every later eviction is a
    // capacity miss, never compulsory or conflict
    let conf = Cache::new(1, 1, 1, 8, true, 1, RAM::new());
    let mut cache = Random::new(conf);
    cache.leitura(0); // compulsory; the watermark reaches total capacity
    cache.leitura(1);
    cache.leitura(2);
    cache.leitura(0);
    let historico = cache.historico_acessos();
    assert_eq!(historico.get_misses_compulsorios(), 1);
    assert_eq!(historico.get_misses_conflito(), 0);
    assert_eq!(historico.get_misses_capacidade(), 3);
}

#[test]
fn bloco_de_uma_so_palavra_faz_uma_leitura() {
    // block size equals the word size: no offset bits, one fill read per miss
    let memoria = MemoriaContadora::new(2, 4);
    let conf = Cache::new(4, 4, 1, 32, false, 4, memoria);
    let mut cache = Random::new(conf);
    assert_eq!(cache.cache_conf().offset_size(), 0);
    assert_eq!(cache.leitura(9), vec![2, 2, 2, 2]);
    assert_eq!(cache.cache_conf().nivel_inferior().leituras(), 1);
}

#[test]
fn marca_de_ocupacao_vale_para_a_cache_inteira() {
    // 2 sets of 2 ways: evicting in a full set while the other set still
    // has empty ways is a conflict miss; once every set has filled, the
    // same eviction becomes a capacity miss
    let conf = Cache::new(2, 4, 2, 32, true, 1, RAM::new());
    let mut cache = Random::new(conf);
    cache.leitura(0); // set 0, first way: compulsory
    cache.leitura(8); // set 0, second way: compulsory
    cache.leitura(0); // hit
    cache.leitura(8); // hit
    assert_eq!(cache.historico_acessos().get_misses_compulsorios(), 2);
    assert_eq!(cache.historico_acessos().get_hits(), 2);

    cache.leitura(16); // set 0 full, but set 1 still empty: conflict
    assert_eq!(cache.historico_acessos().get_misses_conflito(), 1);
    assert_eq!(cache.historico_acessos().get_misses_capacidade(), 0);

    cache.leitura(4); // set 1: compulsory
    cache.leitura(12); // set 1: compulsory; the whole cache has now filled
    cache.leitura(24); // set 0 eviction with the cache full: capacity
    assert_eq!(cache.historico_acessos().get_misses_compulsorios(), 4);
    assert_eq!(cache.historico_acessos().get_misses_capacidade(), 1);
    assert_eq!(cache.historico_acessos().get_misses_conflito(), 1);
}

#[test]
fn escrita_nao_altera_o_estado() {
    let conf = Cache::new(4, 4, 1, 32, true, 1, RAM::new());
    let mut cache = Random::new(conf);
    cache.leitura(0);
    cache.write(9, 0);
    cache.escrita(9, 2);
    assert_eq!(cache.historico_acessos().total_acessos(), 1);
    // the stored block is untouched: re-reading it is a hit with the same byte
    assert_eq!(cache.leitura(0), vec![4]);
    assert_eq!(cache.historico_acessos().get_hits(), 1);
}

#[test]
fn niveis_de_cache_se_empilham() {
    // a cache serves as the backing store of a higher cache level
    let nivel_2 = Random::new(Cache::new(4, 4, 1, 32, true, 1, RAM::new()));
    let mut nivel_1 = Random::new(Cache::new(2, 2, 1, 32, true, 1, nivel_2));
    assert_eq!(nivel_1.leitura(0), vec![4]);
    assert_eq!(nivel_1.leitura(1), vec![4]);
    assert_eq!(nivel_1.historico_acessos().get_misses(), 1);
    assert_eq!(nivel_1.historico_acessos().get_hits(), 1);
    // the lower level saw the two fill reads of the one miss above it
    let abaixo = nivel_1.cache_conf().nivel_inferior().historico_acessos();
    assert_eq!(abaixo.total_acessos(), 2);
}
