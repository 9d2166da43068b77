//! Offline mock-interview question banks and the seeded pick from a bank.
use vstd::prelude::*;
use crate::text::str_eq;

verus! {

/// A built-in interview question: the question and what it probes.
#[derive(Debug, Clone, Copy, PartialEq, Eq)]
pub struct BankQuestion {
    pub question: &'static str,
    pub intent: &'static str,
}

/// General questions for any role.
pub open spec fn general_questions() -> Seq<BankQuestion> {
    seq![
        BankQuestion { question: "请用一分钟做个自我介绍。", intent: "开场定位与信息密度：能否短时间内讲清我是谁、最强的一点" },
        BankQuestion { question: "说说你最大的优点和缺点各一个。", intent: "自我认知与分寸感：优缺点能否给出具体证据" },
        BankQuestion { question: "为什么想加入我们公司？", intent: "动机表达的结构：结论先行 + 对公司的了解 + 个人匹配点" },
        BankQuestion { question: "你未来三年的职业规划是什么？", intent: "目标表达的层次感与逻辑递进" },
        BankQuestion { question: "讲一次你在压力下完成任务的经历。", intent: "STAR 完整性与抗压叙述的条理性" },
        BankQuestion { question: "你和同事发生分歧时怎么处理？", intent: "冲突叙事的行为细节与结果意识" },
        BankQuestion { question: "讲一件你失败的事，以及你从中学到了什么。", intent: "复盘表达：能否坦诚讲清经过并带出改变" },
        BankQuestion { question: "你为什么离开上一家公司？", intent: "敏感问题的分寸与结论先行的直接性" },
        BankQuestion { question: "你最有成就感的一件事是什么？", intent: "成果叙述的量化意识与个人贡献边界" },
        BankQuestion { question: "如果入职后发现工作内容和预期不符，你会怎么办？", intent: "假设性问题的应对结构：先立场后展开" },
        BankQuestion { question: "你平时怎么持续学习？举个例子。", intent: "举例能力：观点之后能否立刻给出具体事实" },
        BankQuestion { question: "给我三个录用你的理由。", intent: "归纳与排序能力：理由是否互斥且各有支撑" },
    ]
}

pub fn general_bank() -> (r: Vec<BankQuestion>)
    ensures
        r@ == general_questions(),
{
    let mut v: Vec<BankQuestion> = Vec::new();
    v.push(BankQuestion { question: "请用一分钟做个自我介绍。", intent: "开场定位与信息密度：能否短时间内讲清我是谁、最强的一点" });
    v.push(BankQuestion { question: "说说你最大的优点和缺点各一个。", intent: "自我认知与分寸感：优缺点能否给出具体证据" });
    v.push(BankQuestion { question: "为什么想加入我们公司？", intent: "动机表达的结构：结论先行 + 对公司的了解 + 个人匹配点" });
    v.push(BankQuestion { question: "你未来三年的职业规划是什么？", intent: "目标表达的层次感与逻辑递进" });
    v.push(BankQuestion { question: "讲一次你在压力下完成任务的经历。", intent: "STAR 完整性与抗压叙述的条理性" });
    v.push(BankQuestion { question: "你和同事发生分歧时怎么处理？", intent: "冲突叙事的行为细节与结果意识" });
    v.push(BankQuestion { question: "讲一件你失败的事，以及你从中学到了什么。", intent: "复盘表达：能否坦诚讲清经过并带出改变" });
    v.push(BankQuestion { question: "你为什么离开上一家公司？", intent: "敏感问题的分寸与结论先行的直接性" });
    v.push(BankQuestion { question: "你最有成就感的一件事是什么？", intent: "成果叙述的量化意识与个人贡献边界" });
    v.push(BankQuestion { question: "如果入职后发现工作内容和预期不符，你会怎么办？", intent: "假设性问题的应对结构：先立场后展开" });
    v.push(BankQuestion { question: "你平时怎么持续学习？举个例子。", intent: "举例能力：观点之后能否立刻给出具体事实" });
    v.push(BankQuestion { question: "给我三个录用你的理由。", intent: "归纳与排序能力：理由是否互斥且各有支撑" });
    assert(v@ =~= general_questions());
    v
}

/// Backend engineering.
pub open spec fn backend_questions() -> Seq<BankQuestion> {
    seq![
        BankQuestion { question: "介绍一个你负责过的系统架构，以及你做出的关键取舍。", intent: "架构表达：能否结论先行讲清取舍理由" },
        BankQuestion { question: "线上服务突然变慢，说说你的排查思路。", intent: "排查叙事的条理：现象、假设、验证、结论" },
        BankQuestion { question: "讲一次你处理过的最棘手的线上故障。", intent: "STAR 完整性与复盘价值" },
        BankQuestion { question: "数据库慢查询你怎么定位和优化？", intent: "技术方案表达的步骤感与量化收益" },
        BankQuestion { question: "讲讲你对高并发场景的理解，举你做过的例子。", intent: "抽象概念与具体案例的结合能力" },
        BankQuestion { question: "你怎么保障代码质量？", intent: "流程叙述的完整性与个人角色" },
        BankQuestion { question: "服务上线前你会做哪些准备？", intent: "清单式表达的条理与优先级" },
        BankQuestion { question: "讲一次你和前端或产品因为接口设计产生的分歧。", intent: "跨职能沟通叙事与结果" },
        BankQuestion { question: "如果让你从零搭建一个新服务的监控体系，你会怎么做？", intent: "方案表达的结构：目标、分层、落地" },
    ]
}

pub fn backend_bank() -> (r: Vec<BankQuestion>)
    ensures
        r@ == backend_questions(),
{
    let mut v: Vec<BankQuestion> = Vec::new();
    v.push(BankQuestion { question: "介绍一个你负责过的系统架构，以及你做出的关键取舍。", intent: "架构表达：能否结论先行讲清取舍理由" });
    v.push(BankQuestion { question: "线上服务突然变慢，说说你的排查思路。", intent: "排查叙事的条理：现象、假设、验证、结论" });
    v.push(BankQuestion { question: "讲一次你处理过的最棘手的线上故障。", intent: "STAR 完整性与复盘价值" });
    v.push(BankQuestion { question: "数据库慢查询你怎么定位和优化？", intent: "技术方案表达的步骤感与量化收益" });
    v.push(BankQuestion { question: "讲讲你对高并发场景的理解，举你做过的例子。", intent: "抽象概念与具体案例的结合能力" });
    v.push(BankQuestion { question: "你怎么保障代码质量？", intent: "流程叙述的完整性与个人角色" });
    v.push(BankQuestion { question: "服务上线前你会做哪些准备？", intent: "清单式表达的条理与优先级" });
    v.push(BankQuestion { question: "讲一次你和前端或产品因为接口设计产生的分歧。", intent: "跨职能沟通叙事与结果" });
    v.push(BankQuestion { question: "如果让你从零搭建一个新服务的监控体系，你会怎么做？", intent: "方案表达的结构：目标、分层、落地" });
    assert(v@ =~= backend_questions());
    v
}

/// Frontend engineering.
pub open spec fn frontend_questions() -> Seq<BankQuestion> {
    seq![
        BankQuestion { question: "介绍一个你最得意的前端项目，你解决了什么核心问题？", intent: "项目叙事的 STAR 与个人贡献边界" },
        BankQuestion { question: "页面首屏加载慢，你的优化思路是什么？", intent: "性能优化表达的层次：度量、定位、手段、收益" },
        BankQuestion { question: "讲一次你处理过的复杂组件状态管理问题。", intent: "技术细节的化繁为简能力" },
        BankQuestion { question: "你怎么保证不同浏览器和设备上的体验一致？", intent: "方案叙述的完整性：规范、工具链、测试" },
        BankQuestion { question: "讲讲你对前端性能指标的理解，怎么在实际项目里改善它们？", intent: "指标量化意识与落地案例" },
        BankQuestion { question: "和设计师对不上稿时你怎么沟通？", intent: "协作叙事与换位表达" },
        BankQuestion { question: "讲一次你推动引入新技术的决策过程。", intent: "决策叙事：动机、对比、风险、结果" },
        BankQuestion { question: "线上一个偶现的交互 bug，你怎么定位？", intent: "排查叙事的方法论与韧性" },
        BankQuestion { question: "你怎么看组件化对前端团队的价值？", intent: "观点表达：立场先行 + 论据支撑" },
    ]
}

pub fn frontend_bank() -> (r: Vec<BankQuestion>)
    ensures
        r@ == frontend_questions(),
{
    let mut v: Vec<BankQuestion> = Vec::new();
    v.push(BankQuestion { question: "介绍一个你最得意的前端项目，你解决了什么核心问题？", intent: "项目叙事的 STAR 与个人贡献边界" });
    v.push(BankQuestion { question: "页面首屏加载慢，你的优化思路是什么？", intent: "性能优化表达的层次：度量、定位、手段、收益" });
    v.push(BankQuestion { question: "讲一次你处理过的复杂组件状态管理问题。", intent: "技术细节的化繁为简能力" });
    v.push(BankQuestion { question: "你怎么保证不同浏览器和设备上的体验一致？", intent: "方案叙述的完整性：规范、工具链、测试" });
    v.push(BankQuestion { question: "讲讲你对前端性能指标的理解，怎么在实际项目里改善它们？", intent: "指标量化意识与落地案例" });
    v.push(BankQuestion { question: "和设计师对不上稿时你怎么沟通？", intent: "协作叙事与换位表达" });
    v.push(BankQuestion { question: "讲一次你推动引入新技术的决策过程。", intent: "决策叙事：动机、对比、风险、结果" });
    v.push(BankQuestion { question: "线上一个偶现的交互 bug，你怎么定位？", intent: "排查叙事的方法论与韧性" });
    v.push(BankQuestion { question: "你怎么看组件化对前端团队的价值？", intent: "观点表达：立场先行 + 论据支撑" });
    assert(v@ =~= frontend_questions());
    v
}

/// Product management.
pub open spec fn product_questions() -> Seq<BankQuestion> {
    seq![
        BankQuestion { question: "讲一个你从零做到上线的功能，说说你的完整决策过程。", intent: "产品叙事：目标、假设、验证、迭代" },
        BankQuestion { question: "你怎么判断一个需求该不该做？", intent: "决策框架表达：结论先行 + 判断依据分层" },
        BankQuestion { question: "数据指标涨了但你怀疑是坏变化，你会怎么办？", intent: "数据质疑的叙事与验证方法" },
        BankQuestion { question: "讲一次你和开发在排期上谈不拢的经历。", intent: "冲突协调叙事与结果" },
        BankQuestion { question: "你怎么做竞品分析？举个例子。", intent: "方法论与案例的结合能力" },
        BankQuestion { question: "一个功能上线后数据不达预期，你怎么复盘？", intent: "复盘结构：目标回放、偏差定位、归因、行动" },
        BankQuestion { question: "你怎么平衡商业目标与用户体验？", intent: "权衡类问题的立场表达" },
        BankQuestion { question: "讲一个你说服别人接受你方案的经历。", intent: "说服叙事：听众视角与证据组织" },
        BankQuestion { question: "如果让你负责一个完全陌生领域的产品，头一个月你做什么？", intent: "计划表达的条理与优先级" },
    ]
}

pub fn product_bank() -> (r: Vec<BankQuestion>)
    ensures
        r@ == product_questions(),
{
    let mut v: Vec<BankQuestion> = Vec::new();
    v.push(BankQuestion { question: "讲一个你从零做到上线的功能，说说你的完整决策过程。", intent: "产品叙事：目标、假设、验证、迭代" });
    v.push(BankQuestion { question: "你怎么判断一个需求该不该做？", intent: "决策框架表达：结论先行 + 判断依据分层" });
    v.push(BankQuestion { question: "数据指标涨了但你怀疑是坏变化，你会怎么办？", intent: "数据质疑的叙事与验证方法" });
    v.push(BankQuestion { question: "讲一次你和开发在排期上谈不拢的经历。", intent: "冲突协调叙事与结果" });
    v.push(BankQuestion { question: "你怎么做竞品分析？举个例子。", intent: "方法论与案例的结合能力" });
    v.push(BankQuestion { question: "一个功能上线后数据不达预期，你怎么复盘？", intent: "复盘结构：目标回放、偏差定位、归因、行动" });
    v.push(BankQuestion { question: "你怎么平衡商业目标与用户体验？", intent: "权衡类问题的立场表达" });
    v.push(BankQuestion { question: "讲一个你说服别人接受你方案的经历。", intent: "说服叙事：听众视角与证据组织" });
    v.push(BankQuestion { question: "如果让你负责一个完全陌生领域的产品，头一个月你做什么？", intent: "计划表达的条理与优先级" });
    assert(v@ =~= product_questions());
    v
}

/// Operations.
pub open spec fn ops_questions() -> Seq<BankQuestion> {
    seq![
        BankQuestion { question: "讲一次你策划的完整活动，从目标到复盘。", intent: "活动叙事：目标、玩法、执行、数据、复盘" },
        BankQuestion { question: "预算砍半但目标不变，你怎么调整策略？", intent: "权衡表达：优先级排序与取舍依据" },
        BankQuestion { question: "你怎么从零搭建一个新渠道的增长？", intent: "增长方法论的层次：假设、测试、放大" },
        BankQuestion { question: "讲一次活动数据不及预期的经历，你怎么应对？", intent: "应变叙事与复盘深度" },
        BankQuestion { question: "你怎么定义和拆解运营的核心指标？", intent: "指标表达的逻辑树与层次" },
        BankQuestion { question: "讲一次你跨部门协调资源的经历。", intent: "协作叙事与说服过程" },
        BankQuestion { question: "内容运营怎么做差异化？举个例子。", intent: "观点与案例的结合能力" },
        BankQuestion { question: "你怎么处理一次突发的舆情或客诉？", intent: "危机叙事：响应顺序与分寸" },
        BankQuestion { question: "你怎么看私域运营的价值？", intent: "观点表达：立场、论据、边界" },
    ]
}

pub fn ops_bank() -> (r: Vec<BankQuestion>)
    ensures
        r@ == ops_questions(),
{
    let mut v: Vec<BankQuestion> = Vec::new();
    v.push(BankQuestion { question: "讲一次你策划的完整活动，从目标到复盘。", intent: "活动叙事：目标、玩法、执行、数据、复盘" });
    v.push(BankQuestion { question: "预算砍半但目标不变，你怎么调整策略？", intent: "权衡表达：优先级排序与取舍依据" });
    v.push(BankQuestion { question: "你怎么从零搭建一个新渠道的增长？", intent: "增长方法论的层次：假设、测试、放大" });
    v.push(BankQuestion { question: "讲一次活动数据不及预期的经历，你怎么应对？", intent: "应变叙事与复盘深度" });
    v.push(BankQuestion { question: "你怎么定义和拆解运营的核心指标？", intent: "指标表达的逻辑树与层次" });
    v.push(BankQuestion { question: "讲一次你跨部门协调资源的经历。", intent: "协作叙事与说服过程" });
    v.push(BankQuestion { question: "内容运营怎么做差异化？举个例子。", intent: "观点与案例的结合能力" });
    v.push(BankQuestion { question: "你怎么处理一次突发的舆情或客诉？", intent: "危机叙事：响应顺序与分寸" });
    v.push(BankQuestion { question: "你怎么看私域运营的价值？", intent: "观点表达：立场、论据、边界" });
    assert(v@ =~= ops_questions());
    v
}

/// Management roles.
pub open spec fn management_questions() -> Seq<BankQuestion> {
    seq![
        BankQuestion { question: "你怎么带一个新组建的团队？", intent: "管理叙事：诊断、节奏、机制" },
        BankQuestion { question: "讲一次你做过的最难的绩效沟通。", intent: "敏感沟通叙事的分寸与结构" },
        BankQuestion { question: "团队士气低落时你做过什么？", intent: "情境应对的 STAR 与共情表达" },
        BankQuestion { question: "你怎么给团队定目标并保证落地？", intent: "目标管理叙事：拆解、对齐、追踪" },
        BankQuestion { question: "讲一次你淘汰或调整团队成员的经历。", intent: "决策叙事的坦诚与流程感" },
        BankQuestion { question: "向上管理和向下管理有什么不同？举个例子。", intent: "抽象对比与案例能力" },
        BankQuestion { question: "跨部门项目推不动，你怎么破局？", intent: "影响力叙事：利益分析、策略、结果" },
        BankQuestion { question: "你怎么培养接班人或团队骨干？", intent: "培养叙事的层次与具体动作" },
        BankQuestion { question: "讲一个你做过的最艰难的业务决策。", intent: "决策叙事：信息不全时的取舍与担当" },
    ]
}

pub fn management_bank() -> (r: Vec<BankQuestion>)
    ensures
        r@ == management_questions(),
{
    let mut v: Vec<BankQuestion> = Vec::new();
    v.push(BankQuestion { question: "你怎么带一个新组建的团队？", intent: "管理叙事：诊断、节奏、机制" });
    v.push(BankQuestion { question: "讲一次你做过的最难的绩效沟通。", intent: "敏感沟通叙事的分寸与结构" });
    v.push(BankQuestion { question: "团队士气低落时你做过什么？", intent: "情境应对的 STAR 与共情表达" });
    v.push(BankQuestion { question: "你怎么给团队定目标并保证落地？", intent: "目标管理叙事：拆解、对齐、追踪" });
    v.push(BankQuestion { question: "讲一次你淘汰或调整团队成员的经历。", intent: "决策叙事的坦诚与流程感" });
    v.push(BankQuestion { question: "向上管理和向下管理有什么不同？举个例子。", intent: "抽象对比与案例能力" });
    v.push(BankQuestion { question: "跨部门项目推不动，你怎么破局？", intent: "影响力叙事：利益分析、策略、结果" });
    v.push(BankQuestion { question: "你怎么培养接班人或团队骨干？", intent: "培养叙事的层次与具体动作" });
    v.push(BankQuestion { question: "讲一个你做过的最艰难的业务决策。", intent: "决策叙事：信息不全时的取舍与担当" });
    assert(v@ =~= management_questions());
    v
}

/// The bank of a role; `custom` (and anything unknown) has none.
pub open spec fn bank_spec(role: Seq<char>) -> Option<Seq<BankQuestion>> {
    if role == "general"@ {
        Some(general_questions())
    } else if role == "backend"@ {
        Some(backend_questions())
    } else if role == "frontend"@ {
        Some(frontend_questions())
    } else if role == "product"@ {
        Some(product_questions())
    } else if role == "ops"@ {
        Some(ops_questions())
    } else if role == "management"@ {
        Some(management_questions())
    } else {
        None
    }
}

pub fn bank_for(role: &str) -> (r: Option<Vec<BankQuestion>>)
    ensures
        match r {
            Some(b) => bank_spec(role@) == Some(b@),
            None => bank_spec(role@) is None,
        },
{
    if str_eq(role, "general") {
        Some(general_bank())
    } else if str_eq(role, "backend") {
        Some(backend_bank())
    } else if str_eq(role, "frontend") {
        Some(frontend_bank())
    } else if str_eq(role, "product") {
        Some(product_bank())
    } else if str_eq(role, "ops") {
        Some(ops_bank())
    } else if str_eq(role, "management") {
        Some(management_bank())
    } else {
        None
    }
}

/// One xorshift64* step.
pub open spec fn xorshift(x: u64) -> u64 {
    let a = x ^ (x << 13u64);
    let b = a ^ (a >> 7u64);
    let c = b ^ (b << 17u64);
    c.wrapping_mul(0x2545F4914F6CDD1Du64)
}

fn xorshift64(x: u64) -> (r: u64)
    ensures
        r == xorshift(x),
{
    let mut x = x;
    x = x ^ (x << 13u64);
    x = x ^ (x >> 7u64);
    x = x ^ (x << 17u64);
    x.wrapping_mul(0x2545F4914F6CDD1Du64)
}

/// The generator's start state: a zero seed is replaced by a constant.
pub open spec fn seed_state(seed: u64) -> u64 {
    if seed == 0 {
        0x9E3779B97F4A7C15u64
    } else {
        seed
    }
}

/// Positions `0..n` and the generator state after the first `i` steps of a
/// partial Fisher-Yates shuffle.
pub open spec fn shuffle(n: nat, seed: u64, i: nat) -> (Seq<int>, u64)
    decreases i,
{
    if i == 0 {
        (Seq::new(n, |k: int| k), seed_state(seed))
    } else {
        let (idx, rng) = shuffle(n, seed, (i - 1) as nat);
        let r = xorshift(rng);
        let a = i - 1;
        let j = a + ((r as usize) as int) % (n - a);
        (idx.update(a, idx[j]).update(j, idx[a]), r)
    }
}

/// How many questions are picked: `count`, at most the whole bank.
pub open spec fn take_count(count: nat, n: nat) -> nat {
    if count < n {
        count
    } else {
        n
    }
}

/// The bank positions picked, in order of picking.
pub open spec fn picked(n: nat, count: nat, seed: u64) -> Seq<int> {
    shuffle(n, seed, take_count(count, n)).0.subrange(0, take_count(count, n) as int)
}

/// A permutation of `0..n`.
pub open spec fn is_perm(idx: Seq<int>, n: nat) -> bool {
    &&& idx.len() == n
    &&& forall|k: int| 0 <= k < n ==> 0 <= #[trigger] idx[k] < n
    &&& forall|a: int, b: int| 0 <= a < b < n ==> idx[a] != idx[b]
}

proof fn lemma_shuffle_perm(n: nat, seed: u64, i: nat)
    requires
        i <= n,
    ensures
        is_perm(shuffle(n, seed, i).0, n),
    decreases i,
{
    if i > 0 {
        lemma_shuffle_perm(n, seed, (i - 1) as nat);
        let (idx, rng) = shuffle(n, seed, (i - 1) as nat);
        let r = xorshift(rng);
        let a = i - 1;
        let j = a + ((r as usize) as int) % (n - a);
        assert(a <= j < n);
        let out = idx.update(a, idx[j]).update(j, idx[a]);
        assert(out == shuffle(n, seed, i).0);
        assert forall|x: int, y: int| 0 <= x < y < n implies out[x] != out[y] by {
            if x != a && x != j && y != a && y != j {
                assert(out[x] == idx[x] && out[y] == idx[y]);
            }
        }
    }
}

/// The picked positions are distinct positions of the bank, and as many as
/// asked for up to the bank's size.
pub proof fn lemma_picked_distinct(n: nat, count: nat, seed: u64)
    ensures
        picked(n, count, seed).len() == take_count(count, n),
        forall|k: int|
            0 <= k < picked(n, count, seed).len() ==> 0 <= #[trigger] picked(n, count, seed)[k] < n,
        forall|a: int, b: int|
            0 <= a < b < picked(n, count, seed).len() ==> picked(n, count, seed)[a] != picked(
                n,
                count,
                seed,
            )[b],
{
    let t = take_count(count, n);
    lemma_shuffle_perm(n, seed, t);
    let idx = shuffle(n, seed, t).0;
    assert forall|k: int| 0 <= k < t implies 0 <= #[trigger] picked(n, count, seed)[k] < n by {
        assert(picked(n, count, seed)[k] == idx[k]);
    }
    assert forall|a: int, b: int| 0 <= a < b < t implies picked(n, count, seed)[a] != picked(
        n,
        count,
        seed,
    )[b] by {
        assert(picked(n, count, seed)[a] == idx[a]);
        assert(picked(n, count, seed)[b] == idx[b]);
    }
}

/// Picks `count` questions (the whole bank at most) in a seeded random
/// order; each comes with its 1-based number. The same seed gives the same
/// pick.
pub fn pick_offline(bank: &[BankQuestion], count: usize, seed: u64) -> (r: Vec<(u32, &'static str, &'static str)>)
    requires
        take_count(count as nat, bank@.len()) <= u32::MAX,
    ensures
        r@.len() == take_count(count as nat, bank@.len()),
        forall|k: int|
            0 <= k < r@.len() ==> (#[trigger] r@[k]).0 == k + 1 && r@[k].1 == bank@[picked(
                bank@.len(),
                count as nat,
                seed,
            )[k]].question && r@[k].2 == bank@[picked(bank@.len(), count as nat, seed)[k]].intent,
{
    let n = bank.len();
    let take = if count < n {
        count
    } else {
        n
    };
    let mut idx: Vec<usize> = Vec::new();
    let mut k: usize = 0;
    while k < n
        invariant
            k <= n,
            n == bank@.len(),
            idx@.len() == k,
            forall|m: int| 0 <= m < k ==> #[trigger] idx@[m] == m,
        decreases n - k,
    {
        idx.push(k);
        k = k + 1;
    }
    assert(idx@.map_values(|x: usize| x as int) =~= shuffle(n as nat, seed, 0).0);
    let mut rng: u64 = if seed == 0 {
        0x9E3779B97F4A7C15u64
    } else {
        seed
    };
    let mut i: usize = 0;
    while i < take
        invariant
            i <= take,
            take == take_count(count as nat, n as nat),
            take <= n,
            n == bank@.len(),
            idx@.len() == n,
            (idx@.map_values(|x: usize| x as int), rng) == shuffle(n as nat, seed, i as nat),
            forall|m: int| 0 <= m < n ==> #[trigger] idx@[m] < n,
        decreases take - i,
    {
        rng = xorshift64(rng);
        let j = i + (rng as usize) % (n - i);
        let ghost before = idx@;
        let a = idx[i];
        let b = idx[j];
        idx.set(i, b);
        idx.set(j, a);
        proof {
            assert(idx@.map_values(|x: usize| x as int) =~= before.map_values(|x: usize| x as int).update(
                i as int,
                before[j as int] as int,
            ).update(j as int, before[i as int] as int));
        }
        i = i + 1;
    }
    let ghost pk = picked(n as nat, count as nat, seed);
    assert(forall|m: int| 0 <= m < take ==> pk[m] == idx@[m] as int);
    let mut out: Vec<(u32, &'static str, &'static str)> = Vec::new();
    let mut m: usize = 0;
    while m < take
        invariant
            m <= take,
            take <= n,
            take <= u32::MAX,
            n == bank@.len(),
            idx@.len() == n,
            forall|x: int| 0 <= x < n ==> #[trigger] idx@[x] < n,
            forall|x: int| 0 <= x < take ==> pk[x] == #[trigger] idx@[x] as int,
            out@.len() == m,
            forall|x: int|
                0 <= x < m ==> (#[trigger] out@[x]).0 == x + 1 && out@[x].1 == bank@[pk[x]].question
                    && out@[x].2 == bank@[pk[x]].intent,
        decreases take - m,
    {
        let q = bank[idx[m]];
        let number: u32 = m as u32 + 1;
        out.push((number, q.question, q.intent));
        m = m + 1;
    }
    out
}

} // verus!
