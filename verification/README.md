# NetAlert

NetAlert watches the traffic of networks. Routers report flows; NetAlert counts them per watched
prefix, protocol category and direction, holds the rates against thresholds, and raises alerts
with suggested BGP Flow Spec rules.

The library under `src/` is written in Verus: each function states what it returns or changes, and
the statements are proved. The daemon under `app/` is ordinary Rust around it: arguments, the
configuration file, sockets, the alert script and the metrics endpoint.

## The library

| Module | What it holds |
| --- | --- |
| `config` | the configuration, when it is refused, and the protocol categories of flows |
| `flow` | flows, and the correction for sampling |
| `ring_buffer` | counts per second over a window, and the rates |
| `processor` | the watched rules: how flows are matched, counted and captured |
| `mitigation` | the analysis of captured flows into suggested rules |
| `alert` | the alert state machine, and what is reported |
| `prometheus` | the text of the metrics endpoint |
| `double` | binary64 arithmetic on bits, to the nearest even as the hardware rounds |
| `net`, `prefix_table`, `maps` | addresses, the prefix table and the hash maps of other crates |
| `text`, `time` | text and points in time |

`alert_laws`, `mitigation_laws` and `processor_laws` prove what holds over many calls: that an
alert fires only after its rate has stayed at the trigger for long enough and is resolved before
it fires again, that all its reports in between carry one id, that a reload orphans no alert,
that alerts of one prefix share the captured flows, that the rules suggested for an alert on a
protocol always name one, that no more flows are captured than the configuration allows, that a
window counts exactly its flows.

Rates and thresholds are `Double`s: the bits of a binary64 number. They become text in the daemon.

## What is taken on trust

Calls into other crates stand in small functions whose contracts Verus believes: `ipnet` and
`ip_network` for the text of prefixes, `ip_network_table` for the prefix table, `uuid` for alert
ids, and the hash maps that the `fxhash` hasher serves. Each says above it what is claimed.

## Configuration

```yaml
global:
  evaluation_interval: 1s
  window: 10s
  alert_script: /etc/netalert/alert.sh
  capture_buffer_size: 500
  mitigation_update_interval: 30s

exporters:
  edge-router-1:
    address: 10.1.1.1
    sampling_rate: 1000

alert_policies:
  default_ddos:
    trigger_for: 3s
    recover_for: 30s

rules:
  - prefix: 10.0.0.0/24
    labels:
      segment: customer
    alert_policy: default_ddos
    thresholds:
      any:
        inbound:
          metrics:
            bps:
              trigger: 300000000
              recover: 200000000
```
