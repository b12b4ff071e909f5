use cache_simulator::historico_acessos::{FonteMiss, HistoricoAcessos};

#[test]
fn historico_comeca_zerado() {
    let historico = HistoricoAcessos::new();
    assert_eq!(historico.get_hits(), 0);
    assert_eq!(historico.get_misses(), 0);
    assert_eq!(historico.get_misses_compulsorios(), 0);
    assert_eq!(historico.get_misses_capacidade(), 0);
    assert_eq!(historico.get_misses_conflito(), 0);
    assert_eq!(historico.total_acessos(), 0);
}

#[test]
fn contadores_somam_hits_e_misses() {
    let mut historico = HistoricoAcessos::new();
    historico.adicionar_hit();
    historico.adicionar_hit();
    historico.adicionar_miss(FonteMiss::Compulsorio);
    historico.adicionar_miss(FonteMiss::Conflito);
    historico.adicionar_miss(FonteMiss::Conflito);
    historico.adicionar_miss(FonteMiss::Capacidade);
    assert_eq!(historico.get_hits(), 2);
    assert_eq!(historico.get_misses(), 4);
    assert_eq!(historico.total_acessos(), 6);
}

#[test]
fn fontes_de_miss_particionam_os_misses() {
    let mut historico = HistoricoAcessos::new();
    historico.adicionar_miss(FonteMiss::Compulsorio);
    historico.adicionar_miss(FonteMiss::Compulsorio);
    historico.adicionar_miss(FonteMiss::Conflito);
    historico.adicionar_miss(FonteMiss::Capacidade);
    historico.adicionar_hit();
    assert_eq!(historico.get_misses_compulsorios(), 2);
    assert_eq!(historico.get_misses_conflito(), 1);
    assert_eq!(historico.get_misses_capacidade(), 1);
    assert_eq!(
        historico.get_misses(),
        historico.get_misses_compulsorios() + historico.get_misses_conflito()
            + historico.get_misses_capacidade()
    );
    assert_eq!(historico.total_acessos(), historico.get_hits() + historico.get_misses());
}
