//! Random numbers for playouts: a source of 64-bit words, and a provider that
//! deals each word out in eight small numbers.

use vstd::prelude::*;

verus! {

/// How many numbers the provider takes from one word.
pub const RNG_PHASE: u32 = 8;

/// How many bits of a word make one number.
pub const RNG_SHAMT: u32 = 8;

/// The mask of the bits of one number.
pub const RNG_MASK: u32 = 255;

/// The length of the table of words.
pub const FAKE_RNG_LEN: usize = 256;

/// The table of words that the table-backed source walks through.
pub const FAKE_RNG_VALUES: [u64; 256] = [
    1676761424638520202, 2939895356340538458, 17728998469973128227, 4873731339148202259,
    14888766267554033333, 3397190989610969540, 17016120907035480532, 5720051754036445887,
    9226006198283208365, 4018310429034958582, 12932234442750983849, 1561155504280919192,
    13898158795496324787, 5715089962962972963, 1079756092685224277, 7898850948263649175,
    5921989576063733925, 16504417086336376473, 4240952514127547152, 13892607808829003127,
    9913266533438410728, 12171393552861043390, 3757904714689556701, 8799141626483857099,
    15112476009282929885, 12056093053672559491, 14997789461864109048, 6279772964424601346,
    3308669982062096412, 16994103614101904274, 18413575972931516964, 10392610048028876503,
    18086827500338154459, 4608828808289729298, 14061891413303642155, 16288506097374620300,
    11517521245459201017, 12151372652580226307, 9235720325026900645, 7433823344142084156,
    6571722528565114074, 18313037719398340516, 14957875857370919346, 2497512302106918145,
    2604686494671587446, 3508265945822672164, 14403833058561485841, 7049299856786905296,
    2163235560049824351, 13838320476001757569, 17695574168459992, 16680976756210633072,
    13098763226352090362, 9491239379368690248, 1963545842821512784, 9903313772432692403,
    16728806772645202475, 13738229821777006309, 6334718664342137367, 11536767335736030956,
    15364385787576022026, 15910285379767651386, 10066837523738016639, 11785278039674685990,
    30956770070838388, 5471559825518861608, 552543316267517069, 13615649174442901335,
    3766134670152004356, 2032874038834920947, 18225546607226973706, 17182677365428888235,
    14152803445638057208, 5265703220483582023, 3220387302988544660, 2606273476983589983,
    9149205774268822573, 10955844135931433785, 2193109761341758610, 3404059774305765462,
    707381209765997804, 8895733017833558147, 16120688406502153905, 2768260120132862439,
    12472295333486694327, 13963903900262325044, 7452253811085463924, 940048371681649676,
    3209322651065194433, 9793723033965714244, 12510740029007402601, 16227047529442877283,
    4303459429779168975, 393000640965451993, 11986793946204985917, 12802571012373768498,
    3141959344722538689, 6919762220100225400, 10964311322043469355, 3511652053681691308,
    844570772520343791, 404117342785637878, 7580705639920345507, 8181479297670164124,
    2144102592099176944, 6300201431409044071, 8317076033381107516, 4665244675622328608,
    6051988362316902582, 15824127020801728259, 5583106237902089642, 12909847312603412095,
    13153371221269165188, 14308666500783577712, 1559139881421591123, 9610260245941585539,
    17110392190811749880, 5938100763269148410, 4623769724401529823, 10029177695292702044,
    2258689528387236946, 2095433011696979013, 11171207816933134132, 9936139159715991650,
    13283674792752983853, 4245403495737788709, 10225615215342202676, 13589633007058903406,
    477038050453562113, 2157577791336328351, 15039045358678315873, 3181686648079685452,
    1711047192750385117, 11840595698236494011, 652530361805992006, 1235398577916225669,
    5544741489090107245, 8954026480920709355, 3904546910116376838, 14122053271804872947,
    1197998269244372091, 11640542567916952696, 13106655145976716629, 3307454261830868710,
    12852845119402631043, 8741307047886469612, 6258499328920920952, 17128120147247571144,
    9490803404556694735, 1290107018526767447, 15563807295763094433, 3240736257704658728,
    7784419869505931903, 12831339338296753344, 5724645739582991588, 5059088715799566884,
    2255478945871969242, 6864669823810819636, 18093549901541662719, 10025586063300516853,
    10690778138020981677, 17124894572556081551, 9063309290606003608, 14135282153307452154,
    16918576790600213037, 1406440462984585053, 17548341056499848913, 1491564791923457376,
    7910795817404609775, 18016257755022730265, 14053186136624006838, 8345490850787587698,
    14972524401579471279, 1346546449563778970, 4520688261236579144, 15509445197340960776,
    5608540929518366295, 12388752117392234366, 680602229358171668, 18429351960167797626,
    4716689556165444143, 11671962534772679628, 1394210961703736585, 13175217261993577715,
    3320535918747679969, 8173034598410817480, 16089642607628774139, 1254673656779780414,
    16014920622290801524, 12223474832482448005, 3751115562845375103, 252653078596294799,
    11817532774757893581, 6568795886591900286, 1545590643709047235, 10078078057595492494,
    3469276706308673442, 11345670332764466485, 11166722010043560901, 11231306468591108878,
    8387053425303657539, 16530469037217536487, 5115453863221368819, 11215048310092129523,
    285072285072496416, 18158150010293132677, 15944440813467023751, 16225020464807301890,
    3015221707980462495, 16427170926547517685, 7746194321968066461, 3611413298331730877,
    14854393899312352040, 2046394030286510469, 6115642871432519136, 17283079244241396190,
    1064212136418418429, 2384707396599419629, 3465969274424065281, 6654147952765748330,
    1753795585333893179, 14843680762529132267, 1778859148707539532, 915900562075528480,
    13735947414674269624, 12153294834607201986, 3705577077924774982, 17233341745947383405,
    9306836491618306671, 1666746922907925419, 12270798747298758276, 1503963713510928470,
    6874113541115680784, 11782526596220135258, 1783061059702411232, 11616125168708785948,
    11397644361446777381, 146103362511728521, 16260865860763507098, 16220466138079195235,
    13097422310252406661, 16167328130239623222, 5022862876868630699, 8600129242113030533,
    7742615801448773175, 1481756419612638737, 16314200924770581972, 11925725101382370362,
    15924520858787191462, 5980704901846371251, 790112647235428245, 16089511475710765047,
    172160118696180607, 39550878273559962, 8397461583374611443, 3546525223732628155,
];

/// A source of 64-bit words. Nothing is asked of the words that it hands out.
pub trait U64Rng {
    /// The next word.
    fn next(&mut self) -> u64;
}

/// The source that walks round the table of words, one step for each word.
#[derive(Clone, Copy, Debug, PartialEq, Eq)]
pub struct FakeRng {
    /// The place in the table of the word handed out last.
    pub phase: usize,
}

impl FakeRng {
    /// The place in the table that follows `phase`.
    pub open spec fn following(phase: usize) -> usize {
        ((phase % 256 + 1) % 256) as usize
    }

    /// The source that starts behind place `seed % 256` of the table.
    pub fn new(seed: u32) -> (r: Self)
        ensures
            r.phase == seed % 256,
    {
        FakeRng { phase: seed as usize % FAKE_RNG_LEN }
    }
}

impl U64Rng for FakeRng {
    /// Steps to the next place of the table and hands out the word there.
    fn next(&mut self) -> (r: u64)
        ensures
            final(self).phase == Self::following(old(self).phase),
            r == FAKE_RNG_VALUES[final(self).phase as int],
    {
        self.phase = (self.phase % FAKE_RNG_LEN + 1) % FAKE_RNG_LEN;
        FAKE_RNG_VALUES[self.phase]
    }
}

/// Deals out the words of a source in numbers of eight bits, lowest bits first,
/// and takes a new word after every eighth number.
#[derive(Debug, PartialEq, Eq)]
pub struct MyRng<T: U64Rng> {
    /// What is left of the current word.
    pub curr: u64,
    /// How many numbers were taken from the current word, modulo eight.
    pub phase: u32,
    /// The source of words.
    pub rng: T,
}

/// The provider that the search uses.
pub type RngProvider = MyRng<FakeRng>;

/// The lowest eight bits of a word are its remainder modulo 256, and the rest
/// is its quotient by 256.
proof fn lemma_low_byte(w: u64, r: u32, rest: u64)
    by (bit_vector)
    requires
        r == (w as u32) & 255u32,
        rest == w >> 8u64,
    ensures
        r == w % 256u64,
        rest == w / 256u64,
{
}

impl<T: U64Rng> MyRng<T> {
    /// A provider that has taken no word from `rng` yet.
    pub fn new(rng: T) -> (r: Self)
        ensures
            r.curr == 0,
            r.phase == 0,
            r.rng == rng,
    {
        MyRng { curr: 0, phase: 0, rng }
    }

    /// Takes the next number off the current word: its lowest eight bits,
    /// which it then loses.
    pub fn take(&mut self) -> (r: u32)
        ensures
            r == old(self).curr % 256,
            final(self).curr == old(self).curr / 256,
            final(self).phase == (old(self).phase % 8 + 1) % 8,
            final(self).rng == old(self).rng,
    {
        self.phase = (self.phase % RNG_PHASE + 1) % RNG_PHASE;
        let word = self.curr;
        let val = (word as u32) & RNG_MASK;
        self.curr = word >> RNG_SHAMT;
        proof {
            lemma_low_byte(word, val, self.curr);
        }
        val
    }

    /// The next number, below 256. Before the first number and after every
    /// eighth a new word is taken from the source, whatever it is; the number is
    /// then taken off the current word.
    pub fn next_u32(&mut self) -> (r: u32)
        ensures
            r < 256,
            final(self).phase == (old(self).phase % 8 + 1) % 8,
            final(self).curr < 0x100_0000_0000_0000,
            old(self).phase != 0 ==> final(self).rng == old(self).rng && r == old(self).curr % 256
                && final(self).curr == old(self).curr / 256,
    {
        if self.phase == 0 {
            self.curr = self.rng.next();
        }
        self.take()
    }
}

/// What the search's provider hands out next, and the provider afterwards.
pub open spec fn provider_next(p: RngProvider) -> (u32, RngProvider) {
    let place = if p.phase == 0 {
        FakeRng::following(p.rng.phase)
    } else {
        p.rng.phase
    };
    let word = if p.phase == 0 {
        FAKE_RNG_VALUES[place as int]
    } else {
        p.curr
    };
    (
        (word % 256) as u32,
        MyRng {
            curr: word / 256,
            phase: ((p.phase % 8 + 1) % 8) as u32,
            rng: FakeRng { phase: place },
        },
    )
}

/// The next number of the search's provider.
pub fn draw(rng: &mut RngProvider) -> (r: u32)
    ensures
        r == provider_next(*old(rng)).0,
        *final(rng) == provider_next(*old(rng)).1,
        r < 256,
{
    if rng.phase == 0 {
        rng.curr = rng.rng.next();
    }
    rng.take()
}

} // verus!
