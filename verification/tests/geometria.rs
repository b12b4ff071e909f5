use cache_simulator::cache::Cache;
use cache_simulator::memoria::RAM;

fn cache_padrao() -> Cache<RAM> {
    Cache::new(32, 4, 1, 32, true, 1, RAM::new())
}

#[test]
fn verifica_potencia_2_aceita_potencias() {
    assert!(Cache::<RAM>::verifica_potencia_2(1));
    assert!(Cache::<RAM>::verifica_potencia_2(2));
    assert!(Cache::<RAM>::verifica_potencia_2(1024));
    assert!(Cache::<RAM>::verifica_potencia_2(0x8000_0000));
}

#[test]
fn verifica_potencia_2_rejeita_outros() {
    assert!(!Cache::<RAM>::verifica_potencia_2(0));
    assert!(!Cache::<RAM>::verifica_potencia_2(3));
    assert!(!Cache::<RAM>::verifica_potencia_2(6));
    assert!(!Cache::<RAM>::verifica_potencia_2(u32::MAX));
}

#[test]
fn geometria_derivada() {
    let cache = cache_padrao();
    assert_eq!(cache.nsets(), 32);
    assert_eq!(cache.bsize(), 4);
    assert_eq!(cache.assoc(), 1);
    assert_eq!(cache.address_size(), 32);
    assert_eq!(cache.bytes_por_palavra(), 1);
    assert!(cache.enderecado_byte());
    assert_eq!(cache.offset_size(), 2);
    assert_eq!(cache.index_size(), 5);
    assert_eq!(cache.tag_size(), 25);
}

#[test]
fn geometria_enderecada_a_palavra() {
    let cache: Cache<RAM> = Cache::new(4, 8, 1, 32, false, 4, RAM::new());
    // two words per block: one offset bit
    assert_eq!(cache.offset_size(), 1);
    assert_eq!(cache.index_size(), 2);
    assert_eq!(cache.tag_size(), 29);
}

#[test]
fn decomposicao_de_enderecos() {
    let cache = cache_padrao();
    assert_eq!(cache.tag_do_endereco(15), 0);
    assert_eq!(cache.indice_do_endereco(15), 3);
    assert_eq!(cache.offset_endereco(15), 3);

    assert_eq!(cache.tag_do_endereco(268), 2);
    assert_eq!(cache.indice_do_endereco(268), 3);
    assert_eq!(cache.offset_endereco(268), 0);

    assert_eq!(cache.tag_do_endereco(480), 3);
    assert_eq!(cache.indice_do_endereco(480), 24);
    assert_eq!(cache.offset_endereco(480), 0);
}

#[test]
fn reconstrucao_particiona_o_endereco() {
    let cache = cache_padrao();
    let deslocamento_indice = cache.offset_size() as u32;
    let deslocamento_tag = (cache.index_size() + cache.offset_size()) as u32;
    for endereco in [0u32, 1, 15, 268, 140, 480, 0xffff_ffff, 0x1234_5678] {
        let tag = cache.tag_do_endereco(endereco);
        let indice = cache.indice_do_endereco(endereco);
        let offset = cache.offset_endereco(endereco);
        let reconstruido = (tag << deslocamento_tag) | (indice << deslocamento_indice) | offset;
        assert_eq!(reconstruido, endereco);
    }
}

#[test]
fn offset_zero_quando_bloco_igual_a_palavra() {
    // block size equals the addressing unit: no offset bits at all
    let cache: Cache<RAM> = Cache::new(16, 1, 2, 32, true, 1, RAM::new());
    assert_eq!(cache.offset_size(), 0);
    for endereco in [0u32, 1, 7, 255, u32::MAX] {
        assert_eq!(cache.offset_endereco(endereco), 0);
    }
}

#[test]
fn construcao_rejeita_parametros_que_nao_sao_potencias() {
    assert!(Cache::try_new(3, 4, 1, 32, true, 1, RAM::new()).is_none());
    assert!(Cache::try_new(32, 6, 1, 32, true, 1, RAM::new()).is_none());
    assert!(Cache::try_new(32, 4, 5, 32, true, 1, RAM::new()).is_none());
    assert!(Cache::try_new(32, 4, 1, 33, true, 1, RAM::new()).is_none());
    assert!(Cache::try_new(32, 4, 4, 32, true, 3, RAM::new()).is_none());
}

#[test]
fn construcao_rejeita_bloco_menor_que_palavra() {
    assert!(Cache::try_new(32, 2, 1, 32, false, 4, RAM::new()).is_none());
}

#[test]
fn construcao_aceita_configuracao_valida() {
    let cache = Cache::try_new(32, 4, 1, 32, true, 1, RAM::new());
    assert!(cache.is_some());
    let cache = cache.unwrap();
    assert_eq!(cache.nsets(), 32);
    assert_eq!(cache.tag_size(), 25);
    assert_eq!(cache.historico().total_acessos(), 0);
}
