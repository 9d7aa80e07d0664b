use vstd::prelude::*;

use crate::keymap::KeyMap;
use crate::text::str_eq;

verus! {

/// The description of a fiscal-document model code.
pub open spec fn spec_modelo_documentos_fiscais(codigo: Seq<char>) -> Seq<char> {
    if codigo == "01"@ {
        "Nota Fiscal"@
    } else if codigo == "1B"@ {
        "Nota Fiscal Avulsa"@
    } else if codigo == "02"@ {
        "Nota Fiscal de Venda a Consumidor"@
    } else if codigo == "2D"@ {
        "Cupom Fiscal emitido por ECF"@
    } else if codigo == "2E"@ {
        "Bilhete de Passagem emitido por ECF"@
    } else if codigo == "04"@ {
        "Nota Fiscal de Produtor"@
    } else if codigo == "06"@ {
        "Nota Fiscal / Conta de Energia Elétrica"@
    } else if codigo == "07"@ {
        "Nota Fiscal de Serviço de Transporte"@
    } else if codigo == "08"@ {
        "Conhecimento de Transporte Rodoviário de Cargas"@
    } else if codigo == "8B"@ {
        "Conhecimento de Transporte de Cargas Avulso"@
    } else if codigo == "09"@ {
        "Conhecimento de Transporte Aquaviário de Cargas"@
    } else if codigo == "10"@ {
        "Conhecimento Aéreo"@
    } else if codigo == "11"@ {
        "Conhecimento de Transporte Ferroviário de Cargas"@
    } else if codigo == "13"@ {
        "Bilhete de Passagem Rodoviário"@
    } else if codigo == "14"@ {
        "Bilhete de Passagem Aquaviário"@
    } else if codigo == "15"@ {
        "Bilhete de Passagem e Nota de Bagagem"@
    } else if codigo == "16"@ {
        "Bilhete de Passagem Ferroviário"@
    } else if codigo == "17"@ {
        "Despacho de Transporte"@
    } else if codigo == "18"@ {
        "Resumo de Movimento Diário"@
    } else if codigo == "20"@ {
        "Ordem de Coleta de Cargas"@
    } else if codigo == "21"@ {
        "Nota Fiscal de Serviço de Comunicação"@
    } else if codigo == "22"@ {
        "Nota Fiscal de Serviço de Telecomunicação"@
    } else if codigo == "23"@ {
        "GNRE"@
    } else if codigo == "24"@ {
        "Autorização de Carregamento e Transporte"@
    } else if codigo == "25"@ {
        "Manifesto de Carga"@
    } else if codigo == "26"@ {
        "Conhecimento de Transporte Multimodal de Cargas"@
    } else if codigo == "27"@ {
        "Nota Fiscal de Transporte Ferroviário de Cargas"@
    } else if codigo == "28"@ {
        "Nota Fiscal / Conta de Fornecimento de Gás Canalizado"@
    } else if codigo == "29"@ {
        "Nota Fiscal / Conta de Fornecimento de Água Canalizada"@
    } else if codigo == "30"@ {
        "Bilhete / Recibo do Passageiro"@
    } else if codigo == "55"@ {
        "Nota Fiscal Eletrônica: NF-e"@
    } else if codigo == "57"@ {
        "Conhecimento de Transporte Eletrônico: CT-e"@
    } else if codigo == "59"@ {
        "Cupom Fiscal Eletrônico: CF-e (CF-e-SAT)"@
    } else if codigo == "60"@ {
        "Cupom Fiscal Eletrônico: CF-e-ECF"@
    } else if codigo == "63"@ {
        "Bilhete de Passagem Eletrônico: BP-e"@
    } else if codigo == "65"@ {
        "Nota Fiscal Eletrônica ao Consumidor Final: NFC-e"@
    } else if codigo == "66"@ {
        "Nota Fiscal de Energia Elétrica Eletrônica: NF3e"@
    } else if codigo == "67"@ {
        "Conhecimento de Transporte Eletrônico para Outros Serviços: CT-e OS"@
    } else {
        "Modelo Desconhecido"@
    }
}

/// The descriptive name of a 2-digit fiscal-document model code.
#[verifier::rlimit(100)]
pub fn get_modelo_documentos_fiscais(codigo: &str) -> (r: &'static str)
    ensures
        r@ == spec_modelo_documentos_fiscais(codigo@),
{
    if str_eq(codigo, "01") {
        "Nota Fiscal"
    } else if str_eq(codigo, "1B") {
        "Nota Fiscal Avulsa"
    } else if str_eq(codigo, "02") {
        "Nota Fiscal de Venda a Consumidor"
    } else if str_eq(codigo, "2D") {
        "Cupom Fiscal emitido por ECF"
    } else if str_eq(codigo, "2E") {
        "Bilhete de Passagem emitido por ECF"
    } else if str_eq(codigo, "04") {
        "Nota Fiscal de Produtor"
    } else if str_eq(codigo, "06") {
        "Nota Fiscal / Conta de Energia Elétrica"
    } else if str_eq(codigo, "07") {
        "Nota Fiscal de Serviço de Transporte"
    } else if str_eq(codigo, "08") {
        "Conhecimento de Transporte Rodoviário de Cargas"
    } else if str_eq(codigo, "8B") {
        "Conhecimento de Transporte de Cargas Avulso"
    } else if str_eq(codigo, "09") {
        "Conhecimento de Transporte Aquaviário de Cargas"
    } else if str_eq(codigo, "10") {
        "Conhecimento Aéreo"
    } else if str_eq(codigo, "11") {
        "Conhecimento de Transporte Ferroviário de Cargas"
    } else if str_eq(codigo, "13") {
        "Bilhete de Passagem Rodoviário"
    } else if str_eq(codigo, "14") {
        "Bilhete de Passagem Aquaviário"
    } else if str_eq(codigo, "15") {
        "Bilhete de Passagem e Nota de Bagagem"
    } else if str_eq(codigo, "16") {
        "Bilhete de Passagem Ferroviário"
    } else if str_eq(codigo, "17") {
        "Despacho de Transporte"
    } else if str_eq(codigo, "18") {
        "Resumo de Movimento Diário"
    } else if str_eq(codigo, "20") {
        "Ordem de Coleta de Cargas"
    } else if str_eq(codigo, "21") {
        "Nota Fiscal de Serviço de Comunicação"
    } else if str_eq(codigo, "22") {
        "Nota Fiscal de Serviço de Telecomunicação"
    } else if str_eq(codigo, "23") {
        "GNRE"
    } else if str_eq(codigo, "24") {
        "Autorização de Carregamento e Transporte"
    } else if str_eq(codigo, "25") {
        "Manifesto de Carga"
    } else if str_eq(codigo, "26") {
        "Conhecimento de Transporte Multimodal de Cargas"
    } else if str_eq(codigo, "27") {
        "Nota Fiscal de Transporte Ferroviário de Cargas"
    } else if str_eq(codigo, "28") {
        "Nota Fiscal / Conta de Fornecimento de Gás Canalizado"
    } else if str_eq(codigo, "29") {
        "Nota Fiscal / Conta de Fornecimento de Água Canalizada"
    } else if str_eq(codigo, "30") {
        "Bilhete / Recibo do Passageiro"
    } else if str_eq(codigo, "55") {
        "Nota Fiscal Eletrônica: NF-e"
    } else if str_eq(codigo, "57") {
        "Conhecimento de Transporte Eletrônico: CT-e"
    } else if str_eq(codigo, "59") {
        "Cupom Fiscal Eletrônico: CF-e (CF-e-SAT)"
    } else if str_eq(codigo, "60") {
        "Cupom Fiscal Eletrônico: CF-e-ECF"
    } else if str_eq(codigo, "63") {
        "Bilhete de Passagem Eletrônico: BP-e"
    } else if str_eq(codigo, "65") {
        "Nota Fiscal Eletrônica ao Consumidor Final: NFC-e"
    } else if str_eq(codigo, "66") {
        "Nota Fiscal de Energia Elétrica Eletrônica: NF3e"
    } else if str_eq(codigo, "67") {
        "Conhecimento de Transporte Eletrônico para Outros Serviços: CT-e OS"
    } else {
        "Modelo Desconhecido"
    }
}

/// The essential ledger columns: logical name to literal header text.
pub fn colunas_efd() -> Vec<(String, String)> {
    let mut v: Vec<(String, String)> = Vec::new();
    v.push(("num_linha".to_owned(), "Linhas".to_owned()));
    v.push(("efd_file".to_owned(), "Arquivo da EFD Contribuições".to_owned()));
    v.push(("efd_line".to_owned(), "Nº da Linha da EFD".to_owned()));
    v.push(("cnpj_contribuinte".to_owned(), "CNPJ dos Estabelecimentos do Contribuinte".to_owned()));
    v.push(("nome_contribuinte".to_owned(), "Nome do Contribuinte".to_owned()));
    v.push(("periodo_apuracao".to_owned(), "Período de Apuração".to_owned()));
    v.push(("periodo_apuracao_ano".to_owned(), "Ano do Período de Apuração".to_owned()));
    v.push(("periodo_apuracao_tri".to_owned(), "Trimestre do Período de Apuração".to_owned()));
    v.push(("periodo_apuracao_mes".to_owned(), "Mês do Período de Apuração".to_owned()));
    v.push(("tipo_de_operacao".to_owned(), "Tipo de Operação".to_owned()));
    v.push(("tipo_de_credito".to_owned(), "Tipo de Crédito".to_owned()));
    v.push(("registro_bloco".to_owned(), "Registro".to_owned()));
    v.push(("codigo_cst".to_owned(), "Código de Situação Tributária (CST)".to_owned()));
    v.push(("codigo_cfop".to_owned(), "Código Fiscal de Operações e Prestações (CFOP)".to_owned()));
    v.push(("natureza_bc".to_owned(), "Natureza da Base de Cálculo dos Créditos".to_owned()));
    v.push(("cnpj_participante".to_owned(), "CNPJ do Participante".to_owned()));
    v.push(("cpf_participante".to_owned(), "CPF do Participante".to_owned()));
    v.push(("nome_participante".to_owned(), "Nome do Participante".to_owned()));
    v.push(("num_doc_fiscal".to_owned(), "Nº do Documento Fiscal".to_owned()));
    v.push(("chave_documento".to_owned(), "Chave do Documento".to_owned()));
    v.push(("modelo_doc_fiscal".to_owned(), "Modelo do Documento Fiscal".to_owned()));
    v.push(("num_item".to_owned(), "Nº do Item do Documento Fiscal".to_owned()));
    v.push(("data_emissao_nota".to_owned(), "Data da Emissão do Documento Fiscal".to_owned()));
    v.push(("data_lancamento".to_owned(), "Data da Entrada / Aquisição / Execução ou da Saída / Prestação / Conclusão".to_owned()));
    v.push(("tipo_do_item".to_owned(), "Tipo do Item".to_owned()));
    v.push(("descricao_do_item".to_owned(), "Descrição do Item".to_owned()));
    v.push(("codigo_ncm".to_owned(), "Código NCM".to_owned()));
    v.push(("escrituracao_contabil".to_owned(), "Escrituração Contábil: Nome da Conta".to_owned()));
    v.push(("info_complem_doc_fiscal".to_owned(), "Informação Complementar do Documento Fiscal".to_owned()));
    v.push(("valor_do_item".to_owned(), "Valor Total do Item".to_owned()));
    v.push(("valor_bc_contrib".to_owned(), "Valor da Base de Cálculo das Contribuições".to_owned()));
    v.push(("aliq_pis".to_owned(), "Alíquota de PIS/PASEP (em percentual)".to_owned()));
    v.push(("aliq_cofins".to_owned(), "Alíquota de COFINS (em percentual)".to_owned()));
    v.push(("valor_de_pis".to_owned(), "Valor de PIS/PASEP".to_owned()));
    v.push(("valor_de_cofins".to_owned(), "Valor de COFINS".to_owned()));
    v.push(("valor_de_iss".to_owned(), "Valor de ISS".to_owned()));
    v.push(("valor_bc_icms".to_owned(), "Valor da Base de Cálculo de ICMS".to_owned()));
    v.push(("aliq_icms".to_owned(), "Alíquota de ICMS (em percentual)".to_owned()));
    v.push(("valor_de_icms".to_owned(), "Valor de ICMS".to_owned()));
    v
}

/// The essential fiscal-document columns: logical name to literal header text.
pub fn colunas_doc() -> Vec<(String, String)> {
    let mut v: Vec<(String, String)> = Vec::new();
    v.push(("cnpj_contribuinte".to_owned(), "CNPJ do Contribuinte : NF Item (Todos)".to_owned()));
    v.push(("nome_contribuinte".to_owned(), "Nome do Contribuinte : NF Item (Todos)".to_owned()));
    v.push(("entrada_ou_saida".to_owned(), "Entrada/Saída : NF (Todos)".to_owned()));
    v.push(("cnpj_participante".to_owned(), "CPF/CNPJ do Participante : NF (Todos)".to_owned()));
    v.push(("nome_participante".to_owned(), "Nome do Participante : NF (Todos)".to_owned()));
    v.push(("codigo_crt".to_owned(), "CRT : NF (Todos)".to_owned()));
    v.push(("observacoes".to_owned(), "Observações : NF (Todos)".to_owned()));
    v.push(("cnpj_do_remetente_ind01".to_owned(), "CTe - Remetente das mercadorias transportadas: CNPJ/CPF de Conhecimento : ConhecimentoValoresPrestacaoServico-Componentes".to_owned()));
    v.push(("cnpj_do_remetente_ind02".to_owned(), "CTe - Remetente das mercadorias transportadas: CNPJ/CPF de Conhecimento : ConhecimentoInformacaoNFe".to_owned()));
    v.push(("remetente_nome".to_owned(), "CTe - Remetente das mercadorias transportadas: Nome de Conhecimento : ConhecimentoInformacaoNFe".to_owned()));
    v.push(("remetente_municipio".to_owned(), "CTe - Remetente das mercadorias transportadas: Município de Conhecimento : ConhecimentoInformacaoNFe".to_owned()));
    v.push(("papel_tomador_ind01".to_owned(), "Descrição CTe - Indicador do 'papel' do tomador do serviço de Conhecimento : ConhecimentoValoresPrestacaoServico-Componentes".to_owned()));
    v.push(("papel_tomador_ind02".to_owned(), "Descrição CTe - Indicador do 'papel' do tomador do serviço de Conhecimento : ConhecimentoInformacaoNFe".to_owned()));
    v.push(("cnpj_do_tomador_ind01".to_owned(), "CTe - Outro tipo de Tomador: CNPJ/CPF de Conhecimento : ConhecimentoValoresPrestacaoServico-Componentes".to_owned()));
    v.push(("cnpj_do_tomador_ind02".to_owned(), "CTe - Outro tipo de Tomador: CNPJ/CPF de Conhecimento : ConhecimentoInformacaoNFe".to_owned()));
    v.push(("inicio_estado".to_owned(), "CTe - UF do início da prestação de Conhecimento : ConhecimentoValoresPrestacaoServico-Componentes".to_owned()));
    v.push(("inicio_munici".to_owned(), "CTe - Nome do Município do início da prestação de Conhecimento : ConhecimentoValoresPrestacaoServico-Componentes".to_owned()));
    v.push(("final_estado".to_owned(), "CTe - UF do término da prestação de Conhecimento : ConhecimentoValoresPrestacaoServico-Componentes".to_owned()));
    v.push(("final_munici".to_owned(), "CTe - Nome do Município do término da prestação de Conhecimento : ConhecimentoValoresPrestacaoServico-Componentes".to_owned()));
    v.push(("info_destinatario_cnpj".to_owned(), "CTe - Informações do Destinatário do CT-e: CNPJ/CPF de Conhecimento : ConhecimentoValoresPrestacaoServico-Componentes".to_owned()));
    v.push(("info_destinatario_nome".to_owned(), "CTe - Informações do Destinatário do CT-e: Nome de Conhecimento : ConhecimentoValoresPrestacaoServico-Componentes".to_owned()));
    v.push(("local_entrega".to_owned(), "CTe - Local de Entrega constante na Nota Fiscal: Nome de Conhecimento : ConhecimentoValoresPrestacaoServico-Componentes".to_owned()));
    v.push(("descricao_nat_oper".to_owned(), "Descrição da Natureza da Operação : NF Item (Todos)".to_owned()));
    v.push(("nota_cancelada".to_owned(), "Cancelada : NF (Todos)".to_owned()));
    v.push(("registro_de_origem".to_owned(), "Registro de Origem do Item : NF Item (Todos)".to_owned()));
    v.push(("natureza_bc".to_owned(), "Natureza da Base de Cálculo do Crédito Descrição : NF Item (Todos)".to_owned()));
    v.push(("modelo_descricao".to_owned(), "Modelo - Descrição : NF Item (Todos)".to_owned()));
    v.push(("num_doc_fiscal".to_owned(), "Número da Nota : NF Item (Todos)".to_owned()));
    v.push(("chave44_digitos".to_owned(), "Chave da Nota Fiscal Eletrônica : NF Item (Todos)".to_owned()));
    v.push(("chave_de_acesso".to_owned(), "Inf. NFe - Chave de acesso da NF-e : ConhecimentoInformacaoNFe".to_owned()));
    v.push(("observacoes_gerais".to_owned(), "CTe - Observações Gerais de Conhecimento : ConhecimentoInformacaoNFe".to_owned()));
    v.push(("dia_emissao_nota".to_owned(), "Dia da Emissão : NF Item (Todos)".to_owned()));
    v.push(("num_di".to_owned(), "Número da DI : NF Item (Todos)".to_owned()));
    v.push(("num_item".to_owned(), "Número do Item : NF Item (Todos)".to_owned()));
    v.push(("codigo_cfop".to_owned(), "Código CFOP : NF Item (Todos)".to_owned()));
    v.push(("descricao_cfop".to_owned(), "Descrição CFOP : NF Item (Todos)".to_owned()));
    v.push(("descricao_da_mercadoria".to_owned(), "Descrição da Mercadoria/Serviço : NF Item (Todos)".to_owned()));
    v.push(("codigo_ncm".to_owned(), "Código NCM : NF Item (Todos)".to_owned()));
    v.push(("descricao_ncm".to_owned(), "Descrição NCM : NF Item (Todos)".to_owned()));
    v.push(("aliquota_cofins".to_owned(), "COFINS: Alíquota ad valorem - Atributo : NF Item (Todos)".to_owned()));
    v.push(("aliquota_pis".to_owned(), "PIS: Alíquota ad valorem - Atributo : NF Item (Todos)".to_owned()));
    v.push(("cst_cofins_descr".to_owned(), "CST COFINS Descrição : NF Item (Todos)".to_owned()));
    v.push(("cst_pis_descr".to_owned(), "CST PIS Descrição : NF Item (Todos)".to_owned()));
    v.push(("valor_total".to_owned(), "Valor Total : NF (Todos) SOMA".to_owned()));
    v.push(("valor_proporcional".to_owned(), "Valor da Nota Proporcional : NF Item (Todos) SOMA".to_owned()));
    v.push(("valor_descontos".to_owned(), "Valor dos Descontos : NF Item (Todos) SOMA".to_owned()));
    v.push(("valor_seguro".to_owned(), "Valor Seguro : NF (Todos) SOMA".to_owned()));
    v.push(("valor_tributo_cofins".to_owned(), "COFINS: Valor do Tributo : NF Item (Todos) SOMA".to_owned()));
    v.push(("valor_tributo_pis".to_owned(), "PIS: Valor do Tributo : NF Item (Todos) SOMA".to_owned()));
    v.push(("valor_tributo_ipi".to_owned(), "IPI: Valor do Tributo : NF Item (Todos) SOMA".to_owned()));
    v.push(("valor_bc_iss".to_owned(), "ISS: Base de Cálculo : NF Item (Todos) SOMA".to_owned()));
    v.push(("valor_tributo_iss".to_owned(), "ISS: Valor do Tributo : NF Item (Todos) SOMA".to_owned()));
    v.push(("aliquota_icms".to_owned(), "ICMS: Alíquota : NF Item (Todos) NOISE OR".to_owned()));
    v.push(("valor_bc_icms".to_owned(), "ICMS: Base de Cálculo : NF Item (Todos) SOMA".to_owned()));
    v.push(("valor_icms".to_owned(), "ICMS: Valor do Tributo : NF Item (Todos) SOMA".to_owned()));
    v.push(("valor_icms_sub".to_owned(), "ICMS por Substituição: Valor do Tributo : NF Item (Todos) SOMA".to_owned()));
    v
}

/// The configuration and context of a reconciliation run: the column
/// tables, the reference graphs, and the reporting flags.
pub struct Config {
    pub docs_keys: bool,
    pub efd_keys: bool,
    pub verbose: bool,
    pub colunas_efd: Vec<(String, String)>,
    pub colunas_doc: Vec<(String, String)>,
    pub nfe_ctes: KeyMap,
    pub cte_nfes: KeyMap,
    pub cte_complementar: KeyMap,
    pub total_de_itens_analisados: usize,
}

impl Config {
    pub open spec fn wf(&self) -> bool {
        self.nfe_ctes.wf() && self.cte_nfes.wf() && self.cte_complementar.wf()
    }

    /// An empty configuration around the given column tables.
    pub fn new(colunas_efd: Vec<(String, String)>, colunas_doc: Vec<(String, String)>) -> (r:
        Config)
        ensures
            r.wf(),
            r.colunas_efd == colunas_efd,
            r.colunas_doc == colunas_doc,
            r.nfe_ctes@ == Map::<Seq<char>, Set<Seq<char>>>::empty(),
            r.cte_nfes@ == Map::<Seq<char>, Set<Seq<char>>>::empty(),
            r.cte_complementar@ == Map::<Seq<char>, Set<Seq<char>>>::empty(),
    {
        Config {
            docs_keys: false,
            efd_keys: false,
            verbose: false,
            colunas_efd,
            colunas_doc,
            nfe_ctes: KeyMap::new(),
            cte_nfes: KeyMap::new(),
            cte_complementar: KeyMap::new(),
            total_de_itens_analisados: 0,
        }
    }
}

} // verus!
