//! Power-on self-tests: a known-answer encryption, its decryption, the
//! rejection of a tampered copy, and a build-identity check.
use crate::chars::cps_of;
use crate::derive::key_bytes_spec;
use crate::legacy::{decrypt_bytes, decrypt_bytes_spec, encrypt_bytes_with_nonce, v7_wire};
use crate::primes::{key_check, validate_key};
use crate::text::push_str;
use vstd::prelude::*;

verus! {

broadcast use vstd::string::group_string_axioms;

/// Reference v7 ciphertext of `"A"` under `kat_key()` and `kat_nonce()`,
/// empty AAD, as hexadecimal split over lines.
pub const KAT_CIPHERTEXT_HEX: &'static str = "9c6c0b921a83849cdbf2fe7efb743fe95efad555806a09d8b58011b313a2ab941c5b12617b85734abbfcb2eaa4f3dfdc
98e2b91011e1fccc7bfe2e0341e7cb273ae8accaf44ad4ada405449698107797b350fc41b84f9a5ecf580896d17c7479
913b3156469c3a26e3b0df3776826a0e26cae67e44c551ec8f242ff08dd2a3599454c647da23779bf0760ea0a394bf92
767a4a48a993372acd0a8caf892164224ba6b63afcba8052357528c429941b27158ba14e5f4667212dc37b43abb9736c
3c5a179a51587ce04ac8436e50f5de8699505880b4c2f015e5c3447897c15dcc318d1515baf606b3efd46b83e88943bf
f987cf74ba1545226b5574db799dc4527bbbbc0c8821f58387469c20ee704822d61aa6cecf91c47638b23d0f8f2f17c7
8a947ef3702524566223bdcd5b44f2429b9a3cfe5877cc61a01296ebe7b1f074b1cf3eca6edb4df857250018f8f71a19
2549c7be79f5b2807c8324010d9e6b912933fec5e401f11e27bc67700ae21db298f3b6f8cd8ee95406bf4a675254a85d
d052402ae033166f123150eac92a4065e583d6e180bec7b2f2138308bdfbe0045ff77c510d79cddc1db1baa8d80194fb
585ecb2ac6451e152fbc090a08a4220f554a46805ed9c2d069f37b03755528fe3954e1a6a09dcfb191037e0aa3062d45
191b0c4f92e1e0f74486e0c357bd73fa56446fb255adea9a1f76dfa895a8ecc5922e171c92282ca16767e944790b5ec2
d227077d4164c2afe97ab6ec5a42d1f71203fa9edb9db2d3077b4e90e890a004fc59654e3b25e0ad2f6a8637fdf082f5
d143e3679bcfa59c165323e4bc7b0461b05f5939722b1eeb2cce5f571f3c4b3ea80e772f7654a0517ed70f46809ff38b
3a83820a45da1dc413dff0e911d87506f4607424c981dda769ec6f011059407696bee5f7a8fb81f350ed8b7c2854a2ef
a642ae1b69e5ccd10b8e030c53db135ddfe08fb4da670864d0b39142a5834e3756d2b77b49b28d65e3b0b86489ca1eab
7bdfd6a46f2150758c3721a82877bf9ad3571b9eb0891fa6060fe6246f95a407e1732f6151525d68654e16044f8c0618
c73a0b2bd24b8c2ec18469b6b2ecb3e91bc9f67a9e6540fad234a3f9dbd6f26bb354013a5032f3a9752aedff7976f705
11e75f6bff6be12641e7bce0f55bc2bfae80809966cc6546540902e2580127223ccd4bf648b2d2a7175cd9bf20c92287
34df862aa6938512335d775d5745f29aed2c66556739620e21ace64ce25fc8b302fbfa283f52b5f7a28be8f09fe0d2c5
4995f40936c1e225c57e7f5307ceb515ce9e0a1de509ca8ee6a2ff43daa2d7e44166a0edabfe3b9f30a35043e81ffe0c
1ac982c4ee4ef6cab522c5039a4fe552f59a9bd90947ad03e1dbd81ec9dce4bf4b1b2d75eba581dbddae8c65d3ad5f83
06101c8af95f38bb162a9917e155887d682ea3356ea92c4f146dee150f4083cc434d13e932d45291118655e870394a46
3e7b4edfad360992590bf90376d17f0a132c012758df3b6993586665af49b8bcbfc638f9737a30b8b32a21f49d7792fc
15efaf8bf8d43cd4a447e0197ce9b6a811cc2b23f6fb9e0d96f9460388b0fd5b8e4d363e4ab1fb971afd317227e409d7
65976a30d21d084ae24bbcac18b323d5c0de487749cd9349a5b9d9890a43f51349c42852c957c05cfbc4ad3c3fbae7f7
19f5202806dcbcce3126d3a9b72eab85b862697b4b142886f3372f0e132e8baa92b04c5c684368933855782f6d30a6ed
cff9abc7e0743106768c5501e985662516e766ee9b75197b107a0316c76b11788381fb6280bf4f5c3868dcbfc6b47c73
cd974d8da8f191edd665f1780939a30d0741caca6c1f19ae9a0ef3eac468e065b2da0af065ec3bfeeb22545666db386a
11bd16b738619675b79d1e866d2b251fee98f26ccf14fc34e5bff529e84729acef479730ae3822f8cca7b5b44d845047
570e32128eb4ac556a45a73293dfc4a1198895891187da92e1686e695c78b7b6945cc71ab37ee5c0915e69fccc61d917
83a83c0b03214c71d9a0571c57137bafcc9725eafb1ad3d0128628ec13f27b8913cdfadf1292ab1b33ec2e92a32d2fa2
53dee091c59a8f98c1c2703264c43a1358a991ae92360a0f32f559bb4ccf492c5cb22558af9f1db96695a3f7a2f51494
d220a0cb176fb2019a6fe02b5b0c6c57f04a61d92cbc53d046357e4a07a7648685063c6694d04689c334ac4a093aa41f
690ede11279069ac8a7007da2c8bf322d9b59c522e193edb8b77ada0ad84f6c6a9edca3658b363f62a423ab08a0719e3
49508a1bc75b3287dc7c9d147c9a7f4f2523efb4d5f7636f5c850b7856157e247823fc84cef0ab0afdc964c57360c541
d04ee81cb911c5993e0e4ce2f5e070a0259a2b61ea9232d10031ac3b8313eddd5c54067e3c9e6f63aa40133ee912a4f7
df1fda6473cbd0623797ec242d3100c1a5d00c1210d1db4669141ec0feff677c87bdce9ea0ce4757aefff862c861e707
698878b6c18c705650079f87886a52c42d135aaef44cc7944124a9d594c411835ae7fe92deb23f7d7772abf21aa29610
9ecc75fb2cc81d326432f430c1be1146ec968a30b7faaa975abdb18141ed4d617f5a02446f5a7b2501f887927688dadb
071f3ad59150e0e5467d9534bdc1ed451385a199ddb82a79046fefbc8106537a7f7585761972fc520115be4efbc2073f
2b4852a2709832bd069d83971b23d9d7fd382c87832c1dc3530bbd72c1e5611012803c405daecf403921b34487919f05
702c03a2cd0971e334c0602b25c6addefb43e8d2059c35bbbe7fc1485f2cf8ad020820b0475ef7b209a85949ad4c92c9
01e6bce5df09f0bedd062d8ff4a0a17aeeaaa9db88a5c3444bae88469c18c6292d02872b61c87ce563f35050af3af839
cc5a2cebcb0e3b0642279e3db21624f586532119f77a1d75bee680dda245b0760cd2d48b34e848364e4de20411018c67
983f1a26ce7e50047431bdbd4fd4f0460d1e36fa9a772e6efa052121beb33ec909057cb15599dd554c421772018d7cb2
0b0659dbcc0bb8a7caf842b7e5c24d215129c58f7b50e798ad285f2269ddbd025d93a169b577094366579e54e033468f
c4c6436abad4cd5b2415dc92c1a86f8b091f332423362635e38856eec8dc6094644203047035cfd2d0b4dfd1bcefdc8d
3661782b93ff4288da422eb9beaab449c574b43db670bac611cb4eb5fa42363603b16f5f6a3fb25798a29953d6012024
adac6e91840706241566b2981204ae046b9fe9dcc79851a501164a37ad82531e9d7956d17950f7a972a3aee8a1dd38a3
3c66e03895ec5685d7d137705065b370797bcaa0f574c958ecb800fb5b32498bd8b0cf67e1e270d6a24484f94b1c52f3
4bc78b17f13e247b5d3722243e3210a6cf4d0f4e5da420c17377f1067ccad29342995b76006b4b9b9b29045fc018b8e9
fef87eeeb1b0886f2186a4ee365e300287f5fb93049b6c49c96a3698292a2abde7a90dd9b092e9f117b1059c11f08d04
c1d157435062b331d69c4b973edc054821403a1c27a36eef6700269c549a702e591d3ccac21d545291839e4881461584
1efa13975fdf4765265f7dcb2762489da8bccb7e75eb1f6317c451904a337a40e4b9683887a59d544b80fbd5f9f0e1ee
add3237857ed78007c78ac75e58865a2681083ad52320ceb4508fa7fa6ef480a9ad1a3c010d5352d83c6384e192d2cc0
cc74c0d788423fc59b73eadff14538255ee49303ad207c7daa0fa62ef8f9ed9962dfec14148b57db4d10c019102ce704
f2c3bf16f6f32aa1ef3f59e2ab2a9d6aec690585c0ff97e0801c782a690ba0db824d9183929dc115afeb8f4b2ddcd1f6
8b538f6b8a46fd8cfb8f6754d036e2012468a5f9e20d971a62336cf7105e608f557b22db71580884ce19b794cf6a2931
afa4c1d4a44b75e73575b5ae2531183e17ec6bdfbafca2f0afebd0eae70a70847b5128a046494204e689be3caf4e021a
4ef742d5331fccaf6a1d71fe5e6fa98e069045c45c516ac5381e725da2d98c996d5127f52b649463502abbc7d1929bf4
746f73eae1d2e30b1eb3abd9473f49130c1dde4819f0bf593cb277eab93c92731549b5061cdce7305d9b40ab9336e971
ef542517c1c3a33978d5caf6a84c548dbd9f1788b0b9502de1a26977a493d710682904f96107c1a3a1c7862d46d74c13
000fe9d87806ebf3db3571d5bdeef3fb4a2006bac5c17c8d52d536672ec876a60ad7516068fa8f0fac553bd58de02511
fb7dce90ce55157d2b90e45af1c6f863e197dc5b71657cd7ff01c54937e47c6c0eefbaa4d078a111a30a1ff22924a5ed
9aac86b1582a9a9fa21f5df3124b8128632e090345fd781ad7bc70c974109d58c50522e907c22af0f973adc594f40884
62a147c2d201e8e67313c4a6a9e635b530c4da1b70bbbf20d4df791b1618473867f660755a50e5e85d74d92b9b148320
8419be99386c0df5b9333ae36117814e3c6a596d794f75163837e0d504bca33f378affe2addebc1104eba62450e69ad2
7b995d808503a3355198fde6d0585aedfdc54ccc1d934ebe4ae53b6cdcfc1c34473cab56eb743fbff35a8d53aba0b787
89f762e7d6ec0e1d2697a011d574796bd26651e4c148d3f1efaee0f2f77cad4c17cce257e53081fc365326b33da0637b
55a41d170cf62c60fa053e946ebf899fc72f14bb18add030638413c3627aa9d81428943152bdf658746abe4f0b3b7434
a108363d4f734502e81d5818f83b3be3d129b3d8fcd829bd95efb8f1c438bf80b06e29b782c4fdc561a3bfe3b6779d2c
49e6f6eda9ff856a5b2593887e8f405fb17f210cc3f00e26666af7b85846e90b428fecba2d313cd9ecc7566e12769b06
0628d5eb906513fde9d3434c8d66d5f7559e92949a6ea4959b0b960ccc4662d92747f0d4104db1f13441ac330e5de815
b96bfae631ca92cd5495759bf0c84c8bcd704368c3c98156c7feb99a3a6f3d823dc8c7b2416193a38fae3db310b3ac14
b37b21eaa5343e1bcd658e4a36d4319b97036987170a9e57a28457369fb709390ed463cdfc424bd6959fa733c172c7d6
74132188349590caa2eb56843a49583449b426cb6620dd082cc7962b6217f8ea7f2b53df3d511f43b6e0c50ca6f88ca9
39987461af96900e2fd811421968b8d9e3f5bf3978cb028729786451b977f0e2a58d9c5974ccbc601f1540f2bfef4de7
53465545376d140b6be39fe329e5cf2d2fd853a412adc7edf92f88cad40cb88a3f536b0c1b307a2d2f91eb5a356024e4
756710e556399b6b7396bb96073a730d87ffaf88cfc818eca48e646cb4a6a4f035d7dad38fe2cb97dca7200781ef0ae8
3480b4780df36c42eda24607e1a98b3ee8918ba21510b1434e5a3a8263343b83de2cc78339d0bf63a24f71b6c301bebd
bd8618dd4d9da3fd7a6cf7d10d0126365a08ac30d121397f0dfacc9c0b3e9c5ec04570aec8cda7b4f2a72ffbd76f20ab
a26b8c33e219b1cecbe918cf23abba754359f45990c1de26613cc284006bc0a26da70a73e0e371955f31132fe11ba8e1
cfa4d69f8c55ef6f6d153a07d2fa03247f9df08ec171f581adcee4120c28b663793fffc1d8915433aac0e002867ee4ee
347aa0502a99f8e1e61307c3246e271558e0a01cf54aec5b4c7e3c57c159b7fe6812b765e8fd01816e1dd49627caf807
670e73c70955eaecb6e028513fb0464773d61f79546371ae0a70f94f748dd8239faaca8fec3c53ed1821d8dd284c174f
3a73b85ba3692e15ae31dc26a4d390650703b760c4fc3bc75aa89a31a5712149b226f93c70bf29eebf9519baa4cd0880
d3ccfd0f0764eef1495ba9dcd44d2923b4316a6709d176a4ad7eb53ddb03d92b269598cb1e79e1cb2503d0859ad8c188
30e62e05548c30e237dad461f706c5e1699a347a1921f04be2cb8dffe559ad5cd924706f13a29d115611a2d0372ce49f
9331eb60f793de015272d5a7ab77bd79824a9a525c2a2cc5f4d2054c9c3593c533ec2721c6abda6a574a9a503fa11a46
96c69396292e350baaa8bd95b9d4c25e97d2009ec947b30be772314dba4d44c81dc97049d7e0f60f9ca1e173555a2f34
b1a14ca6c7b85e9bd426432474d24908f2f652e40a39d2e37cf0f4d31c86a5ed990716f6d7f40e8cff69c78341e0da23
e8b515a6f7ce196ff65331d2ee307d658c2e08c890dff18a3cb0187ad889bd5270386ec89175afcac4a0eb40295aa489
077b0222d30257f0c127ab9ae290699d7a023dde4d9e13dba18e27902657712fe544b63ef566fe6e54b7bc02e1ceebca
16076fe0245d3419107297afcf5d59d14fd4687cc809f344668bbca822dfbe59e2c939092a38fa943591f3a3224b431f
7998e74c49db04f0e6cb09448b0b0f7c31bc7c4be8f07a16741499fdd5bafb71aba04cc2f6c5b7e110350acb50c94778
a6a8381b5aab8c59c99e921b9021c6a16b9d5edbe9738322097c1f3f1f98f534ce525dbf89c89bae8a10dfdba13686f1
5f17f6ec9ea3f49d0722c5c60e1db62c76a9688b27bd05bced20685312e68a74097a0aa4d6e12c626eb82f75a4de560c
feb6fc9f02769b22397ac176f165f81bcbb53059bbfd8263ca5cb252e2b25e8cf57c3b966c96f379ff99ed654be61e71
bbfb43045b60b963ecd08726b83d1cedcb85cd12c0a1a950da73fcecab8f2bc8e77cbdb380b82a9e77cbb749ee276b29
5f6b9d2d38496dabad2ee00499d0298dcab91bea96276d63f8de53e2606ee070";

/// Message of the known-answer test.
pub const KAT_MESSAGE: &'static str = "A";

/// Version string the integrity check expects.
pub const BUILD_HASH: &'static str = "0.1.0";

pub open spec fn kat_key_spec() -> Seq<u64> {
    seq![1_000_003u64, 1_000_033u64, 1_000_037u64, 1_000_039u64]
}

pub open spec fn kat_nonce_spec() -> Seq<u8> {
    seq![
        0x9cu8, 0x6cu8, 0x0bu8, 0x92u8, 0x1au8, 0x83u8, 0x84u8, 0x9cu8,
        0xdbu8, 0xf2u8, 0xfeu8, 0x7eu8, 0xfbu8, 0x74u8, 0x3fu8, 0xe9u8,
    ]
}

fn kat_key() -> (k: [u64; 4])
    ensures
        k@ == kat_key_spec(),
{
    let k = [1_000_003u64, 1_000_033u64, 1_000_037u64, 1_000_039u64];
    assert(k@ =~= kat_key_spec());
    k
}

fn kat_nonce() -> (n: [u8; 16])
    ensures
        n@ == kat_nonce_spec(),
{
    let n = [
        0x9cu8, 0x6cu8, 0x0bu8, 0x92u8, 0x1au8, 0x83u8, 0x84u8, 0x9cu8,
        0xdbu8, 0xf2u8, 0xfeu8, 0x7eu8, 0xfbu8, 0x74u8, 0x3fu8, 0xe9u8,
    ];
    assert(n@ =~= kat_nonce_spec());
    n
}

/// Errors of the power-on self-tests.
#[derive(Debug, PartialEq, Eq)]
pub enum SelfTestError {
    /// KAT-1: encryption did not give the reference ciphertext.
    KatEncryptMismatch,
    /// KAT-2: decryption did not give the plaintext.
    KatDecryptMismatch,
    /// KAT-3: a tampered ciphertext was accepted.
    KatTamperNotRejected,
    /// INT-1: the build identity did not match.
    IntegrityCheckFailed,
    /// The test material itself is unusable.
    InternalError(&'static str),
}

impl SelfTestError {
    /// The message of the error.
    pub open spec fn message(self) -> Seq<char> {
        match self {
            SelfTestError::KatEncryptMismatch => "KAT-1 FAIL: encrypt output mismatch"@,
            SelfTestError::KatDecryptMismatch => "KAT-2 FAIL: decrypt output mismatch"@,
            SelfTestError::KatTamperNotRejected => "KAT-3 FAIL: tampered ciphertext was not rejected"@,
            SelfTestError::IntegrityCheckFailed => "INT-1 FAIL: software integrity check failed"@,
            SelfTestError::InternalError(s) => "SELF-TEST INTERNAL ERROR: "@ + s@,
        }
    }

    /// The message of the error.
    pub fn to_string(&self) -> (s: String)
        ensures
            s@ == self.message(),
    {
        match self {
            SelfTestError::KatEncryptMismatch => String::from_str("KAT-1 FAIL: encrypt output mismatch"),
            SelfTestError::KatDecryptMismatch => String::from_str("KAT-2 FAIL: decrypt output mismatch"),
            SelfTestError::KatTamperNotRejected => String::from_str(
                "KAT-3 FAIL: tampered ciphertext was not rejected",
            ),
            SelfTestError::IntegrityCheckFailed => String::from_str(
                "INT-1 FAIL: software integrity check failed",
            ),
            SelfTestError::InternalError(m) => {
                let mut s = String::from_str("SELF-TEST INTERNAL ERROR: ");
                push_str(&mut s, m);
                s
            },
        }
    }
}

/// Value of a hexadecimal digit.
pub open spec fn hex_value(c: char) -> Option<nat> {
    if '0' <= c && c <= '9' {
        Some(((c as nat) - ('0' as nat)) as nat)
    } else if 'a' <= c && c <= 'f' {
        Some(((c as nat) - ('a' as nat) + 10) as nat)
    } else if 'A' <= c && c <= 'F' {
        Some(((c as nat) - ('A' as nat) + 10) as nat)
    } else {
        None
    }
}

/// The characters of `s` other than spaces and line feeds.
pub open spec fn hex_digits(s: Seq<char>) -> Seq<char>
    decreases s.len(),
{
    if s.len() == 0 {
        Seq::empty()
    } else if s.last() == ' ' || s.last() == '\n' {
        hex_digits(s.drop_last())
    } else {
        hex_digits(s.drop_last()).push(s.last())
    }
}

/// All of `d` are hexadecimal digits.
pub open spec fn all_hex(d: Seq<char>) -> bool {
    forall|i: int| 0 <= i < d.len() ==> #[trigger] hex_value(d[i]) is Some
}

/// The bytes of an even-length sequence of hexadecimal digits.
pub open spec fn hex_bytes(d: Seq<char>) -> Seq<u8> {
    Seq::new(
        d.len() / 2,
        |i: int| (hex_value(d[2 * i])->0 * 16 + hex_value(d[2 * i + 1])->0) as u8,
    )
}

/// What `decode_hex` answers.
pub open spec fn decode_hex_spec(s: Seq<char>) -> Option<Seq<u8>> {
    let d = hex_digits(s);
    if d.len() % 2 != 0 || !all_hex(d) {
        None
    } else {
        Some(hex_bytes(d))
    }
}

fn hex_val(c: char) -> (r: Option<u8>)
    ensures
        match hex_value(c) {
            Some(v) => r == Some(v as u8) && v < 16,
            None => r is None,
        },
{
    if '0' <= c && c <= '9' {
        Some(((c as u32) - ('0' as u32)) as u8)
    } else if 'a' <= c && c <= 'f' {
        Some(((c as u32) - ('a' as u32) + 10) as u8)
    } else if 'A' <= c && c <= 'F' {
        Some(((c as u32) - ('A' as u32) + 10) as u8)
    } else {
        None
    }
}

/// Decodes hexadecimal text, ignoring spaces and line feeds.
fn decode_hex(s: &str) -> (r: Result<Vec<u8>, SelfTestError>)
    ensures
        match decode_hex_spec(s@) {
            Some(b) => r matches Ok(v) && v@ == b,
            None => r matches Err(SelfTestError::InternalError(_)),
        },
{
    let mut digits: Vec<char> = Vec::new();
    assert(s@.subrange(0, s@.len() as int) =~= s@);
    for c in it: s.chars()
        invariant
            it.seq() == s@,
            s@.subrange(0, s@.len() as int) == s@,
            digits@ == hex_digits(s@.subrange(0, it.index() as int)),
    {
        proof {
            assert(it.seq().subrange(0, it.index() + 1).drop_last() =~= it.seq().subrange(
                0,
                it.index() as int,
            ));
        }
        if c != ' ' && c != '\n' {
            digits.push(c);
        }
    }
    if digits.len() % 2 != 0 {
        return Err(SelfTestError::InternalError("hex string has odd length"));
    }
    let dl = digits.len();
    let n = dl / 2;
    let mut out: Vec<u8> = Vec::new();
    let mut i: usize = 0;
    while i < n
        invariant
            i <= n,
            n * 2 == dl,
            dl == digits@.len(),
            digits@ == hex_digits(s@),
            forall|j: int| 0 <= j < 2 * i ==> #[trigger] hex_value(digits@[j]) is Some,
            out@ == hex_bytes(digits@).subrange(0, i as int),
        decreases n - i,
    {
        let hi = match hex_val(digits[2 * i]) {
            Some(v) => v,
            None => {
                return Err(SelfTestError::InternalError("invalid hex digit"));
            },
        };
        let lo = match hex_val(digits[2 * i + 1]) {
            Some(v) => v,
            None => {
                return Err(SelfTestError::InternalError("invalid hex digit"));
            },
        };
        assert(hi * 16 + lo < 256) by (nonlinear_arith)
            requires
                hi < 16,
                lo < 16,
        ;
        out.push(hi * 16 + lo);
        proof {
            assert(hex_bytes(digits@).subrange(0, i + 1) =~= hex_bytes(digits@).subrange(
                0,
                i as int,
            ).push((hi * 16 + lo) as u8));
        }
        i = i + 1;
    }
    assert(all_hex(digits@));
    assert(out@ =~= hex_bytes(digits@));
    Ok(out)
}

fn bytes_equal(a: &[u8], b: &[u8]) -> (r: bool)
    ensures
        r == (a@ == b@),
{
    if a.len() != b.len() {
        return false;
    }
    let mut i: usize = 0;
    while i < a.len()
        invariant
            i <= a@.len() == b@.len(),
            forall|j: int| 0 <= j < i ==> a@[j] == b@[j],
        decreases a@.len() - i,
    {
        if a[i] != b[i] {
            return false;
        }
        i = i + 1;
    }
    assert(a@ =~= b@);
    true
}

fn str_equal(a: &str, b: &str) -> (r: bool)
    ensures
        r == (a@ == b@),
{
    let n = a.unicode_len();
    if n != b.unicode_len() {
        return false;
    }
    let mut i: usize = 0;
    while i < n
        invariant
            i <= n == a@.len() == b@.len(),
            forall|j: int| 0 <= j < i ==> a@[j] == b@[j],
        decreases n - i,
    {
        if a.get_char(i) != b.get_char(i) {
            return false;
        }
        i = i + 1;
    }
    assert(a@ =~= b@);
    true
}

/// The reference ciphertext with its last byte flipped.
pub open spec fn tampered(ct: Seq<u8>) -> Seq<u8> {
    ct.update(ct.len() - 1, ct.last() ^ 0xFF)
}

/// KAT-1 passes: the key is valid and encryption with the fixed nonce gives
/// the reference ciphertext.
pub open spec fn kat_encrypt_ok(ct: Seq<u8>) -> bool {
    key_check(kat_key_spec()) is Ok && v7_wire(
        key_bytes_spec(kat_key_spec()),
        kat_nonce_spec(),
        kat_key_spec(),
        seq![],
        cps_of(KAT_MESSAGE@),
    ) == Some(ct)
}

/// KAT-2 passes: the reference ciphertext decrypts to the message.
pub open spec fn kat_decrypt_ok(ct: Seq<u8>) -> bool {
    decrypt_bytes_spec(kat_key_spec(), seq![], ct) == Ok::<Seq<char>, Seq<char>>(KAT_MESSAGE@)
}

/// KAT-3 passes: the tampered ciphertext is refused.
pub open spec fn kat_tamper_ok(ct: Seq<u8>) -> bool {
    ct.len() > 0 && decrypt_bytes_spec(kat_key_spec(), seq![], tampered(ct)) is Err
}

/// The tests pass exactly when the reference hex decodes, KAT-1, KAT-2 and
/// KAT-3 pass, and the build identity is `"0.1.0"`.
pub open spec fn self_tests_pass() -> bool {
    match decode_hex_spec(KAT_CIPHERTEXT_HEX@) {
        None => false,
        Some(ct) => ct.len() <= 0xFFFF_FFFF && kat_encrypt_ok(ct) && kat_decrypt_ok(ct)
            && kat_tamper_ok(ct) && BUILD_HASH@ == "0.1.0"@,
    }
}

fn reference_ciphertext() -> (r: Result<Vec<u8>, SelfTestError>)
    ensures
        match decode_hex_spec(KAT_CIPHERTEXT_HEX@) {
            Some(b) => if b.len() <= 0xFFFF_FFFF {
                r matches Ok(v) && v@ == b
            } else {
                r matches Err(SelfTestError::InternalError(_))
            },
            None => r matches Err(SelfTestError::InternalError(_)),
        },
{
    let ct = decode_hex(KAT_CIPHERTEXT_HEX)?;
    if ct.len() > 0xFFFF_FFFF {
        return Err(SelfTestError::InternalError("reference ciphertext too long"));
    }
    Ok(ct)
}

/// KAT-1: the fixed-nonce encryption of the message matches the reference.
pub fn kat_encrypt() -> (r: Result<(), SelfTestError>)
    ensures
        r is Ok <==> (match decode_hex_spec(KAT_CIPHERTEXT_HEX@) {
            Some(ct) => ct.len() <= 0xFFFF_FFFF && kat_encrypt_ok(ct),
            None => false,
        }),
{
    let expected = reference_ciphertext()?;
    let key = kat_key();
    match validate_key(&key) {
        Ok(()) => {},
        Err(_) => {
            return Err(SelfTestError::InternalError("known-answer key is not valid"));
        },
    }
    proof {
        reveal_strlit("A");
    }
    let got = encrypt_bytes_with_nonce(KAT_MESSAGE, &key, kat_nonce(), &[]);
    proof {
        let w = v7_wire(
            key_bytes_spec(kat_key_spec()),
            kat_nonce_spec(),
            kat_key_spec(),
            seq![],
            cps_of(KAT_MESSAGE@),
        );
        if w is None {
            assert(expected@.len() > 0 || true);
        }
    }
    if bytes_equal(got.as_slice(), expected.as_slice()) && expected.len() > 0 {
        Ok(())
    } else {
        Err(SelfTestError::KatEncryptMismatch)
    }
}

/// KAT-2: the reference ciphertext decrypts to the message.
pub fn kat_decrypt() -> (r: Result<(), SelfTestError>)
    ensures
        r is Ok <==> (match decode_hex_spec(KAT_CIPHERTEXT_HEX@) {
            Some(ct) => ct.len() <= 0xFFFF_FFFF && kat_decrypt_ok(ct),
            None => false,
        }),
{
    let ciphertext = reference_ciphertext()?;
    let key = kat_key();
    match decrypt_bytes(ciphertext.as_slice(), &key, &[]) {
        Ok(pt) => if str_equal(pt.as_str(), KAT_MESSAGE) {
            Ok(())
        } else {
            Err(SelfTestError::KatDecryptMismatch)
        },
        Err(_) => Err(SelfTestError::KatDecryptMismatch),
    }
}

/// KAT-3: the reference ciphertext with its last byte flipped is refused.
pub fn kat_tamper_rejection() -> (r: Result<(), SelfTestError>)
    ensures
        r is Ok <==> (match decode_hex_spec(KAT_CIPHERTEXT_HEX@) {
            Some(ct) => ct.len() <= 0xFFFF_FFFF && kat_tamper_ok(ct),
            None => false,
        }),
{
    let mut ciphertext = reference_ciphertext()?;
    if ciphertext.len() == 0 {
        return Err(SelfTestError::KatTamperNotRejected);
    }
    let ghost orig = ciphertext@;
    let last = ciphertext.len() - 1;
    let b = ciphertext[last];
    ciphertext.set(last, b ^ 0xFF);
    assert(ciphertext@ =~= tampered(orig));
    let key = kat_key();
    match decrypt_bytes(ciphertext.as_slice(), &key, &[]) {
        Err(_) => Ok(()),
        Ok(_) => Err(SelfTestError::KatTamperNotRejected),
    }
}

/// INT-1: the build identity matches.
pub fn integrity_check() -> (r: Result<(), SelfTestError>)
    ensures
        r is Ok <==> BUILD_HASH@ == "0.1.0"@,
{
    if str_equal(BUILD_HASH, "0.1.0") {
        Ok(())
    } else {
        Err(SelfTestError::IntegrityCheckFailed)
    }
}

/// Runs KAT-1, KAT-2, KAT-3 and INT-1 in turn, stopping at the first
/// failure.
pub fn run_power_on_self_tests() -> (r: Result<(), SelfTestError>)
    ensures
        r is Ok <==> self_tests_pass(),
{
    kat_encrypt()?;
    kat_decrypt()?;
    kat_tamper_rejection()?;
    integrity_check()?;
    Ok(())
}

} // verus!
