//! Decoding of API objects, and the keys of their JSON forms.
use base64::Engine;
use kube_proto::descriptor::{
    expected_json_keys, expected_json_keys_for, map_value_type, types_are_known,
};
use kube_proto::dispatch::{api_group, decode_proto_by_kind_and_version, ApiGroup};
use kube_proto::envelope::{decode_k8s_proto_envelope, encode_proto_response};
use kube_proto::exceptions::{Exceptions, FieldPath};
use kube_proto::json::Json;
use kube_proto::object::{decode_members, Schema};
use kube_proto::schema::message_index;
use kube_proto::wire::{decode_varint, encode_ld_field, encode_varint};

const K8S_PROTO_MAGIC: &[u8] = &[0x6b, 0x38, 0x73, 0x00];

fn encode_length_delimited(number: u64, payload: &[u8]) -> Vec<u8> {
    encode_ld_field(number, payload)
}

fn json(text: &str) -> serde_json::Value {
    serde_json::from_str(text).unwrap()
}

fn message(parts: &[Vec<u8>]) -> Vec<u8> {
    parts.concat()
}

fn text(number: u64, value: &str) -> Vec<u8> {
    encode_ld_field(number, value.as_bytes())
}

fn number(number: u64, value: u64) -> Vec<u8> {
    let mut out = encode_varint(number << 3);
    out.extend_from_slice(&encode_varint(value));
    out
}

/// The fields of a message as number, wire type and payload length; panics on
/// wire types that are not allowed.
fn assert_valid_wire_types(msg: &[u8]) -> Vec<(u64, u64, usize)> {
    let mut pos = 0;
    let mut fields = Vec::new();
    while pos < msg.len() {
        let (tag, rest) = decode_varint(&msg[pos..]).unwrap();
        pos += msg[pos..].len() - rest.len();
        let wire_type = tag & 0x7;
        let field_number = tag >> 3;
        assert!(!matches!(wire_type, 3 | 4 | 6 | 7));
        match wire_type {
            0 => {
                let (_, rest2) = decode_varint(&msg[pos..]).unwrap();
                let consumed = msg[pos..].len() - rest2.len();
                fields.push((field_number, wire_type, consumed));
                pos += consumed;
            }
            2 => {
                let (len, rest2) = decode_varint(&msg[pos..]).unwrap();
                pos += msg[pos..].len() - rest2.len();
                let len = len as usize;
                assert!(pos + len <= msg.len());
                fields.push((field_number, wire_type, len));
                pos += len;
            }
            _ => unreachable!("wire type checked above"),
        }
    }
    fields
}

/// Message types, one a line: fields with number and type. The types are `s`
/// string, `b` bytes, `t` bool, `i` int32, `l` int64, `d` double or a message;
/// `*` marks repeated fields, `map:` maps from strings.
const SCHEMA: &str = "\
meta.Time: seconds=1 l; nanos=2 i
meta.MicroTime: seconds=1 l; nanos=2 i
meta.ObjectMeta: name=1 s; generateName=2 s; namespace=3 s; selfLink=4 s; uid=5 s; resourceVersion=6 s; generation=7 l; creationTimestamp=8 meta.Time; deletionTimestamp=9 meta.Time; deletionGracePeriodSeconds=10 l; labels=11 map:s; annotations=12 map:s; ownerReferences=13 *meta.OwnerReference; finalizers=14 *s
meta.OwnerReference: kind=1 s; name=3 s; uid=4 s; apiVersion=5 s; controller=6 t; blockOwnerDeletion=7 t
meta.LabelSelector: matchLabels=1 map:s; matchExpressions=2 *meta.LabelSelectorRequirement
meta.LabelSelectorRequirement: key=1 s; operator=2 s; values=3 *s
meta.Condition: type=1 s; status=2 s; observedGeneration=3 l; lastTransitionTime=4 meta.Time; reason=5 s; message=6 s
meta.DeleteOptions: gracePeriodSeconds=1 l; preconditions=2 meta.Preconditions; orphanDependents=3 t; propagationPolicy=4 s; dryRun=5 *s
meta.Preconditions: uid=1 s; resourceVersion=2 s
resource.Quantity: string=1 s
intstr.IntOrString: type=1 l; intVal=2 i; strVal=3 s
runtime.RawExtension: raw=1 b
core.Namespace: metadata=1 meta.ObjectMeta; spec=2 core.NamespaceSpec; status=3 core.NamespaceStatus
core.NamespaceSpec: finalizers=1 *s
core.NamespaceStatus: phase=1 s
core.ConfigMap: metadata=1 meta.ObjectMeta; data=2 map:s; binaryData=3 map:b; immutable=4 t
core.Pod: metadata=1 meta.ObjectMeta; spec=2 core.PodSpec; status=3 core.PodStatus
core.PodStatus: phase=1 s; message=3 s; reason=4 s; hostIP=5 s; podIP=6 s; startTime=7 meta.Time
core.PodTemplate: metadata=1 meta.ObjectMeta; template=2 core.PodTemplateSpec
core.PodTemplateSpec: metadata=1 meta.ObjectMeta; spec=2 core.PodSpec
core.PodSpec: volumes=1 *core.Volume; containers=2 *core.Container; restartPolicy=3 s; terminationGracePeriodSeconds=4 l; activeDeadlineSeconds=5 l; dnsPolicy=6 s; nodeSelector=7 map:s; serviceAccountName=8 s; serviceAccount=9 s; nodeName=10 s; hostNetwork=11 t; hostPID=12 t; hostIPC=13 t; imagePullSecrets=15 *core.LocalObjectReference; hostname=16 s; subdomain=17 s; schedulerName=19 s; initContainers=20 *core.Container; automountServiceAccountToken=21 t; runtimeClassName=29 s; enableServiceLinks=30 t; ephemeralContainers=34 *core.EphemeralContainer
core.Container: name=1 s; image=2 s; command=3 *s; args=4 *s; workingDir=5 s; ports=6 *core.ContainerPort; env=7 *core.EnvVar; resources=8 core.ResourceRequirements; volumeMounts=9 *core.VolumeMount; livenessProbe=10 core.Probe; readinessProbe=11 core.Probe; lifecycle=12 core.Lifecycle; terminationMessagePath=13 s; imagePullPolicy=14 s; stdin=16 t; stdinOnce=17 t; tty=18 t; envFrom=19 *core.EnvFromSource; terminationMessagePolicy=20 s; startupProbe=22 core.Probe; resizePolicy=23 *core.ContainerResizePolicy; restartPolicy=24 s
core.ContainerPort: name=1 s; hostPort=2 i; containerPort=3 i; protocol=4 s; hostIP=5 s
core.ContainerResizePolicy: resourceName=1 s; restartPolicy=2 s
core.EphemeralContainer: ephemeralContainerCommon=1 core.EphemeralContainerCommon; targetContainerName=2 s
core.EphemeralContainerCommon: name=1 s; image=2 s
core.EnvVar: name=1 s; value=2 s; valueFrom=3 core.EnvVarSource
core.EnvVarSource: fieldRef=1 core.ObjectFieldSelector; resourceFieldRef=2 core.ResourceFieldSelector; configMapKeyRef=3 core.ConfigMapKeySelector; secretKeyRef=4 core.SecretKeySelector
core.ObjectFieldSelector: apiVersion=1 s; fieldPath=2 s
core.ResourceFieldSelector: containerName=1 s; resource=2 s; divisor=3 resource.Quantity
core.ConfigMapKeySelector: localObjectReference=1 core.LocalObjectReference; key=2 s; optional=3 t
core.SecretKeySelector: localObjectReference=1 core.LocalObjectReference; key=2 s; optional=3 t
core.EnvFromSource: prefix=1 s; configMapRef=2 core.ConfigMapEnvSource; secretRef=3 core.SecretEnvSource
core.ConfigMapEnvSource: localObjectReference=1 core.LocalObjectReference; optional=2 t
core.SecretEnvSource: localObjectReference=1 core.LocalObjectReference; optional=2 t
core.LocalObjectReference: name=1 s
core.ResourceRequirements: limits=1 map:resource.Quantity; requests=2 map:resource.Quantity
core.VolumeMount: name=1 s; readOnly=2 t; mountPath=3 s; subPath=4 s; subPathExpr=6 s
core.Probe: handler=1 core.ProbeHandler; initialDelaySeconds=2 i; timeoutSeconds=3 i; periodSeconds=4 i; successThreshold=5 i; failureThreshold=6 i
core.ProbeHandler: exec=1 core.ExecAction; httpGet=2 core.HTTPGetAction; tcpSocket=3 core.TCPSocketAction; grpc=4 core.GRPCAction
core.ExecAction: command=1 *s
core.HTTPGetAction: path=1 s; port=2 intstr.IntOrString; host=3 s; scheme=4 s
core.TCPSocketAction: port=1 intstr.IntOrString; host=2 s
core.GRPCAction: port=1 i; service=2 s
core.Lifecycle: postStart=1 core.LifecycleHandler; preStop=2 core.LifecycleHandler
core.LifecycleHandler: exec=1 core.ExecAction; httpGet=2 core.HTTPGetAction; tcpSocket=3 core.TCPSocketAction; sleep=4 core.SleepAction
core.SleepAction: seconds=1 l
core.Volume: name=1 s; volumeSource=2 core.VolumeSource
core.VolumeSource: hostPath=1 core.HostPathVolumeSource; emptyDir=2 core.EmptyDirVolumeSource; secret=6 core.SecretVolumeSource; downwardAPI=16 core.DownwardAPIVolumeSource; configMap=19 core.ConfigMapVolumeSource; projected=26 core.ProjectedVolumeSource
core.HostPathVolumeSource: path=1 s; type=2 s
core.EmptyDirVolumeSource: medium=1 s; sizeLimit=2 resource.Quantity
core.SecretVolumeSource: secretName=1 s; items=2 *core.KeyToPath; defaultMode=3 i; optional=4 t
core.ConfigMapVolumeSource: localObjectReference=1 core.LocalObjectReference; items=2 *core.KeyToPath; defaultMode=3 i; optional=4 t
core.KeyToPath: key=1 s; path=2 s; mode=3 i
core.DownwardAPIVolumeSource: items=1 *core.DownwardAPIVolumeFile; defaultMode=2 i
core.DownwardAPIVolumeFile: path=1 s; fieldRef=2 core.ObjectFieldSelector; resourceFieldRef=3 core.ResourceFieldSelector; mode=4 i
core.ProjectedVolumeSource: sources=1 *core.VolumeProjection; defaultMode=2 i
core.VolumeProjection: secret=1 core.SecretProjection; downwardAPI=2 core.DownwardAPIProjection; configMap=3 core.ConfigMapProjection; serviceAccountToken=4 core.ServiceAccountTokenProjection
core.DownwardAPIProjection: items=1 *core.DownwardAPIVolumeFile
core.ConfigMapProjection: localObjectReference=1 core.LocalObjectReference; items=2 *core.KeyToPath; optional=4 t
core.SecretProjection: localObjectReference=1 core.LocalObjectReference; items=2 *core.KeyToPath; optional=4 t
core.ServiceAccountTokenProjection: audience=1 s; expirationSeconds=2 l; path=3 s
core.Node: metadata=1 meta.ObjectMeta; spec=2 core.NodeSpec
core.NodeSpec: podCIDR=1 s; externalID=2 s; providerID=3 s; unschedulable=4 t; taints=5 *core.Taint; podCIDRs=7 *s
core.Taint: key=1 s; value=2 s; effect=3 s
core.DaemonEndpoint: Port=1 i
core.Service: metadata=1 meta.ObjectMeta; spec=2 core.ServiceSpec; status=3 core.ServiceStatus
core.ServiceSpec: ports=1 *core.ServicePort; selector=2 map:s; clusterIP=3 s; type=4 s; externalIPs=5 *s; sessionAffinity=7 s; ipFamilyPolicy=17 s; internalTrafficPolicy=22 s
core.ServicePort: name=1 s; protocol=2 s; port=3 i; targetPort=4 intstr.IntOrString; nodePort=5 i
core.ServiceStatus: conditions=2 *meta.Condition
core.Secret: metadata=1 meta.ObjectMeta; data=2 map:b; type=3 s; stringData=4 map:s; immutable=5 t
core.ReplicationController: metadata=1 meta.ObjectMeta; spec=2 core.ReplicationControllerSpec; status=3 core.ReplicationControllerStatus
core.ReplicationControllerSpec: replicas=1 i; selector=2 map:s; template=3 core.PodTemplateSpec; minReadySeconds=4 i
core.ReplicationControllerStatus: replicas=1 i; fullyLabeledReplicas=2 i; observedGeneration=3 l; readyReplicas=4 i; availableReplicas=5 i; conditions=6 *core.ReplicationControllerCondition
core.ReplicationControllerCondition: type=1 s; status=2 s; lastTransitionTime=3 meta.Time; reason=4 s; message=5 s
core.PersistentVolume: metadata=1 meta.ObjectMeta; spec=2 core.PersistentVolumeSpec
core.PersistentVolumeSpec: capacity=1 map:resource.Quantity; persistentVolumeSource=2 core.PersistentVolumeSource; accessModes=3 *s; claimRef=4 core.ObjectReference; persistentVolumeReclaimPolicy=5 s; storageClassName=6 s; mountOptions=7 *s; volumeMode=8 s
core.PersistentVolumeSource: hostPath=3 core.HostPathVolumeSource; nfs=5 core.NFSVolumeSource
core.NFSVolumeSource: server=1 s; path=2 s; readOnly=3 t
core.ObjectReference: kind=1 s; namespace=2 s; name=3 s; uid=4 s; apiVersion=5 s; resourceVersion=6 s; fieldPath=7 s
core.ServiceAccount: metadata=1 meta.ObjectMeta; secrets=2 *core.ObjectReference; imagePullSecrets=3 *core.LocalObjectReference; automountServiceAccountToken=4 t
core.PersistentVolumeClaim: metadata=1 meta.ObjectMeta; spec=2 core.PersistentVolumeClaimSpec; status=3 core.PersistentVolumeClaimStatus
core.PersistentVolumeClaimSpec: accessModes=1 *s; resources=2 core.VolumeResourceRequirements; volumeName=3 s; selector=4 meta.LabelSelector; storageClassName=5 s; volumeMode=6 s
core.VolumeResourceRequirements: limits=1 map:resource.Quantity; requests=2 map:resource.Quantity
core.PersistentVolumeClaimStatus: phase=1 s; accessModes=2 *s; capacity=3 map:resource.Quantity; conditions=4 *core.PersistentVolumeClaimCondition
core.PersistentVolumeClaimCondition: type=1 s; status=2 s; lastProbeTime=3 meta.Time; lastTransitionTime=4 meta.Time; reason=5 s; message=6 s
core.Endpoints: metadata=1 meta.ObjectMeta; subsets=2 *core.EndpointSubset
core.EndpointSubset: addresses=1 *core.EndpointAddress; notReadyAddresses=2 *core.EndpointAddress; ports=3 *core.EndpointPort
core.EndpointAddress: ip=1 s; targetRef=2 core.ObjectReference; hostname=3 s; nodeName=4 s
core.EndpointPort: name=1 s; port=2 i; protocol=3 s
core.ResourceQuota: metadata=1 meta.ObjectMeta; spec=2 core.ResourceQuotaSpec
core.ResourceQuotaSpec: hard=1 map:resource.Quantity; scopes=2 *s
core.LimitRange: metadata=1 meta.ObjectMeta; spec=2 core.LimitRangeSpec
core.LimitRangeSpec: limits=1 *core.LimitRangeItem
core.LimitRangeItem: type=1 s; max=2 map:resource.Quantity; min=3 map:resource.Quantity; default=4 map:resource.Quantity; defaultRequest=5 map:resource.Quantity
core.Event: metadata=1 meta.ObjectMeta; involvedObject=2 core.ObjectReference; reason=3 s; message=4 s; firstTimestamp=6 meta.Time; lastTimestamp=7 meta.Time; count=8 i; type=9 s; eventTime=10 meta.MicroTime; series=11 core.EventSeries; action=12 s
core.EventSeries: count=1 i; lastObservedTime=2 meta.MicroTime
apps.Deployment: metadata=1 meta.ObjectMeta; spec=2 apps.DeploymentSpec; status=3 apps.DeploymentStatus
apps.DeploymentSpec: replicas=1 i; selector=2 meta.LabelSelector; template=3 core.PodTemplateSpec; minReadySeconds=5 i; revisionHistoryLimit=6 i; paused=7 t
apps.DeploymentStatus: observedGeneration=1 l; replicas=2 i; updatedReplicas=3 i; availableReplicas=4 i; unavailableReplicas=5 i; conditions=6 *apps.DeploymentCondition; readyReplicas=7 i; collisionCount=8 i
apps.DeploymentCondition: type=1 s; status=2 s; reason=4 s; message=5 s; lastUpdateTime=6 meta.Time; lastTransitionTime=7 meta.Time
apps.StatefulSet: metadata=1 meta.ObjectMeta; spec=2 apps.StatefulSetSpec; status=3 apps.StatefulSetStatus
apps.StatefulSetSpec: replicas=1 i; selector=2 meta.LabelSelector; template=3 core.PodTemplateSpec; serviceName=5 s; podManagementPolicy=6 s; updateStrategy=7 apps.StatefulSetUpdateStrategy
apps.StatefulSetUpdateStrategy: type=1 s; rollingUpdate=2 apps.RollingUpdateStatefulSetStrategy
apps.RollingUpdateStatefulSetStrategy: partition=1 i
apps.StatefulSetStatus: observedGeneration=1 l; replicas=2 i; readyReplicas=3 i; currentReplicas=4 i; updatedReplicas=5 i; currentRevision=6 s; updateRevision=7 s; collisionCount=9 i; conditions=10 *apps.StatefulSetCondition
apps.StatefulSetCondition: type=1 s; status=2 s; lastTransitionTime=3 meta.Time; reason=4 s; message=5 s
apps.DaemonSet: metadata=1 meta.ObjectMeta; spec=2 apps.DaemonSetSpec; status=3 apps.DaemonSetStatus
apps.DaemonSetSpec: selector=1 meta.LabelSelector; template=2 core.PodTemplateSpec; minReadySeconds=4 i
apps.DaemonSetStatus: currentNumberScheduled=1 i; numberMisscheduled=2 i; desiredNumberScheduled=3 i; numberReady=4 i; observedGeneration=5 l; updatedNumberScheduled=6 i; numberAvailable=7 i; numberUnavailable=8 i; collisionCount=9 i; conditions=10 *apps.DaemonSetCondition
apps.DaemonSetCondition: type=1 s; status=2 s; lastTransitionTime=3 meta.Time; reason=4 s; message=5 s
apps.ReplicaSet: metadata=1 meta.ObjectMeta; spec=2 apps.ReplicaSetSpec; status=3 apps.ReplicaSetStatus
apps.ReplicaSetSpec: replicas=1 i; selector=2 meta.LabelSelector; template=3 core.PodTemplateSpec; minReadySeconds=4 i
apps.ReplicaSetStatus: replicas=1 i; fullyLabeledReplicas=2 i; observedGeneration=3 l; readyReplicas=4 i; availableReplicas=5 i; conditions=6 *apps.ReplicaSetCondition
apps.ReplicaSetCondition: type=1 s; status=2 s; lastTransitionTime=3 meta.Time; reason=4 s; message=5 s
apps.ControllerRevision: metadata=1 meta.ObjectMeta; data=2 runtime.RawExtension; revision=3 l
batch.CronJob: metadata=1 meta.ObjectMeta; spec=2 batch.CronJobSpec; status=3 batch.CronJobStatus
batch.CronJobSpec: schedule=1 s; startingDeadlineSeconds=2 l; concurrencyPolicy=3 s; suspend=4 t; jobTemplate=5 batch.JobTemplateSpec; successfulJobsHistoryLimit=6 i; failedJobsHistoryLimit=7 i; timeZone=8 s
batch.CronJobStatus: active=1 *core.ObjectReference; lastScheduleTime=4 meta.Time; lastSuccessfulTime=5 meta.Time
batch.JobTemplateSpec: metadata=1 meta.ObjectMeta; spec=2 batch.JobSpec
batch.Job: metadata=1 meta.ObjectMeta; spec=2 batch.JobSpec; status=3 batch.JobStatus
batch.JobSpec: parallelism=1 i; completions=2 i; activeDeadlineSeconds=3 l; selector=4 meta.LabelSelector; manualSelector=5 t; template=6 core.PodTemplateSpec; backoffLimit=7 i; ttlSecondsAfterFinished=8 i; completionMode=9 s; suspend=10 t; podFailurePolicy=11 batch.PodFailurePolicy; backoffLimitPerIndex=12 i; maxFailedIndexes=13 i; successPolicy=16 batch.SuccessPolicy
batch.PodFailurePolicy: rules=1 *batch.PodFailurePolicyRule
batch.PodFailurePolicyRule: action=1 s; onExitCodes=2 batch.PodFailurePolicyOnExitCodesRequirement; onPodConditions=3 *batch.PodFailurePolicyOnPodConditionsPattern
batch.PodFailurePolicyOnExitCodesRequirement: containerName=1 s; operator=2 s; values=3 *i
batch.PodFailurePolicyOnPodConditionsPattern: type=1 s; status=2 s
batch.SuccessPolicy: rules=1 *batch.SuccessPolicyRule
batch.SuccessPolicyRule: succeededIndexes=1 s; succeededCount=2 i
batch.JobStatus: conditions=1 *batch.JobCondition; startTime=2 meta.Time; completionTime=3 meta.Time; active=4 i; succeeded=5 i; failed=6 i; completedIndexes=7 s
batch.JobCondition: type=1 s; status=2 s; lastProbeTime=3 meta.Time; lastTransitionTime=4 meta.Time; reason=5 s; message=6 s
rbac.ClusterRole: metadata=1 meta.ObjectMeta; rules=2 *rbac.PolicyRule
rbac.Role: metadata=1 meta.ObjectMeta; rules=2 *rbac.PolicyRule
rbac.PolicyRule: verbs=1 *s; apiGroups=2 *s; resources=3 *s; resourceNames=4 *s; nonResourceURLs=5 *s
rbac.ClusterRoleBinding: metadata=1 meta.ObjectMeta; subjects=2 *rbac.Subject; roleRef=3 rbac.RoleRef
rbac.RoleBinding: metadata=1 meta.ObjectMeta; subjects=2 *rbac.Subject; roleRef=3 rbac.RoleRef
rbac.Subject: kind=1 s; apiGroup=2 s; name=3 s; namespace=4 s
rbac.RoleRef: apiGroup=1 s; kind=2 s; name=3 s
authorization.SubjectAccessReview: metadata=1 meta.ObjectMeta; spec=2 authorization.SubjectAccessReviewSpec
authorization.LocalSubjectAccessReview: metadata=1 meta.ObjectMeta; spec=2 authorization.SubjectAccessReviewSpec
authorization.SubjectAccessReviewSpec: resourceAttributes=1 authorization.ResourceAttributes; user=3 s; groups=4 *s; uid=6 s
authorization.ResourceAttributes: namespace=1 s; verb=2 s; group=3 s; version=4 s; resource=5 s; subresource=6 s; name=7 s
authentication.TokenReview: metadata=1 meta.ObjectMeta; spec=2 authentication.TokenReviewSpec
authentication.TokenReviewSpec: token=1 s; audiences=2 *s
coordination.Lease: metadata=1 meta.ObjectMeta; spec=2 coordination.LeaseSpec
coordination.LeaseSpec: holderIdentity=1 s; leaseDurationSeconds=2 i; acquireTime=3 meta.MicroTime; renewTime=4 meta.MicroTime; leaseTransitions=5 i; strategy=6 s; preferredHolder=7 s
storage.CSINode: metadata=1 meta.ObjectMeta; spec=2 storage.CSINodeSpec
storage.CSINodeSpec: drivers=1 *storage.CSINodeDriver
storage.CSINodeDriver: name=1 s; nodeID=2 s; topologyKeys=3 *s
storage.CSIDriver: metadata=1 meta.ObjectMeta; spec=2 storage.CSIDriverSpec
storage.CSIDriverSpec: attachRequired=1 t; podInfoOnMount=2 t; volumeLifecycleModes=3 *s; storageCapacity=4 t; fsGroupPolicy=5 s; tokenRequests=6 *storage.TokenRequest; requiresRepublish=7 t
storage.TokenRequest: audience=1 s; expirationSeconds=2 l
storage.CSIStorageCapacity: metadata=1 meta.ObjectMeta; nodeTopology=2 meta.LabelSelector; storageClassName=3 s; capacity=4 resource.Quantity
storage.VolumeAttachment: metadata=1 meta.ObjectMeta; spec=2 storage.VolumeAttachmentSpec
storage.VolumeAttachmentSpec: attacher=1 s; source=2 storage.VolumeAttachmentSource; nodeName=3 s
storage.VolumeAttachmentSource: persistentVolumeName=1 s
storage.StorageClass: metadata=1 meta.ObjectMeta; provisioner=2 s; parameters=3 map:s; reclaimPolicy=4 s; mountOptions=5 *s; allowVolumeExpansion=6 t; volumeBindingMode=7 s
storage.VolumeAttributesClass: metadata=1 meta.ObjectMeta; driverName=2 s; parameters=3 map:s
networking.IngressClass: metadata=1 meta.ObjectMeta; spec=2 networking.IngressClassSpec
networking.IngressClassSpec: controller=1 s
networking.Ingress: metadata=1 meta.ObjectMeta; spec=2 networking.IngressSpec
networking.IngressSpec: defaultBackend=1 networking.IngressBackend; rules=3 *networking.IngressRule; ingressClassName=4 s
networking.IngressBackend: service=4 networking.IngressServiceBackend
networking.IngressServiceBackend: name=1 s; port=2 networking.ServiceBackendPort
networking.ServiceBackendPort: name=1 s; number=2 i
networking.IngressRule: host=1 s
networking.IPAddress: metadata=1 meta.ObjectMeta; spec=2 networking.IPAddressSpec
networking.IPAddressSpec: parentRef=1 networking.ParentReference
networking.ParentReference: group=1 s; resource=2 s; namespace=3 s; name=4 s
networking.ServiceCIDR: metadata=1 meta.ObjectMeta; spec=2 networking.ServiceCIDRSpec
networking.ServiceCIDRSpec: cidrs=1 *s
discovery.EndpointSlice: metadata=1 meta.ObjectMeta; endpoints=2 *discovery.Endpoint; ports=3 *discovery.EndpointPort; addressType=4 s
discovery.Endpoint: addresses=1 *s; conditions=2 discovery.EndpointConditions; hostname=3 s; targetRef=4 core.ObjectReference; deprecatedTopology=5 map:s; nodeName=6 s; zone=7 s; hints=8 discovery.EndpointHints
discovery.EndpointConditions: ready=1 t; serving=2 t; terminating=3 t
discovery.EndpointHints: forZones=1 *discovery.ForZone
discovery.ForZone: name=1 s
discovery.EndpointPort: name=1 s; protocol=2 s; port=3 i; appProtocol=4 s
events.Event: metadata=1 meta.ObjectMeta; eventTime=2 meta.MicroTime; series=3 events.EventSeries; reportingController=4 s; reportingInstance=5 s; action=6 s; reason=7 s; regarding=8 core.ObjectReference; related=9 core.ObjectReference; note=10 s; type=11 s
events.EventSeries: count=1 i; lastObservedTime=2 meta.MicroTime
policy.PodDisruptionBudget: metadata=1 meta.ObjectMeta; spec=2 policy.PodDisruptionBudgetSpec; status=3 policy.PodDisruptionBudgetStatus
policy.PodDisruptionBudgetSpec: minAvailable=1 intstr.IntOrString; selector=2 meta.LabelSelector; maxUnavailable=3 intstr.IntOrString; unhealthyPodEvictionPolicy=4 s
policy.PodDisruptionBudgetStatus: observedGeneration=1 l; disruptedPods=2 map:meta.Time; disruptionsAllowed=3 i; currentHealthy=4 i; desiredHealthy=5 i; expectedPods=6 i; conditions=7 *meta.Condition
flowcontrol.FlowSchema: metadata=1 meta.ObjectMeta
flowcontrol.PriorityLevelConfiguration: metadata=1 meta.ObjectMeta
admissionregistration.ValidatingWebhookConfiguration: metadata=1 meta.ObjectMeta; webhooks=2 *admissionregistration.ValidatingWebhook
admissionregistration.ValidatingWebhook: name=1 s; failurePolicy=4 s; matchConditions=11 *admissionregistration.MatchCondition
admissionregistration.MutatingWebhookConfiguration: metadata=1 meta.ObjectMeta; webhooks=2 *admissionregistration.MutatingWebhook
admissionregistration.MutatingWebhook: name=1 s; failurePolicy=4 s; matchConditions=12 *admissionregistration.MatchCondition
admissionregistration.MatchCondition: name=1 s; expression=2 s
admissionregistration.MutatingAdmissionPolicy: metadata=1 meta.ObjectMeta; spec=2 admissionregistration.MutatingAdmissionPolicySpec
admissionregistration.MutatingAdmissionPolicySpec: matchConstraints=2 admissionregistration.MatchResources; mutations=4 *admissionregistration.Mutation; failurePolicy=5 s; matchConditions=6 *admissionregistration.MatchCondition; reinvocationPolicy=7 s
admissionregistration.Mutation: patchType=2 s; applyConfiguration=3 admissionregistration.ApplyConfiguration
admissionregistration.ApplyConfiguration: expression=1 s
admissionregistration.MatchResources: resourceRules=3 *admissionregistration.NamedRuleWithOperations
admissionregistration.NamedRuleWithOperations: resourceNames=1 *s; ruleWithOperations=2 admissionregistration.RuleWithOperations
admissionregistration.RuleWithOperations: operations=1 *s; rule=2 admissionregistration.Rule
admissionregistration.Rule: apiGroups=1 *s; apiVersions=2 *s; resources=3 *s; scope=4 s
admissionregistration.MutatingAdmissionPolicyBinding: metadata=1 meta.ObjectMeta; spec=2 admissionregistration.MutatingAdmissionPolicyBindingSpec
admissionregistration.MutatingAdmissionPolicyBindingSpec: policyName=1 s
admissionregistration.ValidatingAdmissionPolicy: metadata=1 meta.ObjectMeta; spec=2 admissionregistration.ValidatingAdmissionPolicySpec
admissionregistration.ValidatingAdmissionPolicySpec: matchConstraints=2 admissionregistration.MatchResources; validations=3 *admissionregistration.Validation; failurePolicy=4 s; matchConditions=6 *admissionregistration.MatchCondition
admissionregistration.Validation: expression=1 s; message=2 s; reason=3 s; messageExpression=4 s
admissionregistration.ValidatingAdmissionPolicyBinding: metadata=1 meta.ObjectMeta; spec=2 admissionregistration.ValidatingAdmissionPolicyBindingSpec
admissionregistration.ValidatingAdmissionPolicyBindingSpec: policyName=1 s; validationActions=4 *s
certificates.CertificateSigningRequest: metadata=1 meta.ObjectMeta; spec=2 certificates.CertificateSigningRequestSpec; status=3 certificates.CertificateSigningRequestStatus
certificates.CertificateSigningRequestSpec: request=1 b; username=2 s; uid=3 s; groups=4 *s; usages=5 *s; signerName=7 s; expirationSeconds=8 i
certificates.CertificateSigningRequestStatus: conditions=1 *certificates.CertificateSigningRequestCondition; certificate=2 b
certificates.CertificateSigningRequestCondition: type=1 s; reason=2 s; message=3 s; lastUpdateTime=4 meta.Time; lastTransitionTime=5 meta.Time; status=6 s
scheduling.PriorityClass: metadata=1 meta.ObjectMeta; value=2 i; globalDefault=3 t; description=4 s; preemptionPolicy=5 s
node.RuntimeClass: metadata=1 meta.ObjectMeta; handler=2 s; overhead=3 node.Overhead
node.Overhead: podFixed=1 map:resource.Quantity
apiextensions.CustomResourceDefinition: metadata=1 meta.ObjectMeta; spec=2 apiextensions.CustomResourceDefinitionSpec; status=3 apiextensions.CustomResourceDefinitionStatus
apiextensions.CustomResourceDefinitionSpec: group=1 s; names=3 apiextensions.CustomResourceDefinitionNames; scope=4 s; versions=7 *apiextensions.CustomResourceDefinitionVersion
apiextensions.CustomResourceDefinitionNames: plural=1 s; singular=2 s; shortNames=3 *s; kind=4 s; listKind=5 s
apiextensions.CustomResourceDefinitionVersion: name=1 s; served=2 t; storage=3 t; schema=4 apiextensions.CustomResourceValidation; additionalPrinterColumns=6 *apiextensions.CustomResourceColumnDefinition
apiextensions.CustomResourceValidation: openAPIV3Schema=1 apiextensions.JSONSchemaProps
apiextensions.CustomResourceColumnDefinition: name=1 s; type=2 s; format=3 s; description=4 s; priority=5 i; jsonPath=6 s
apiextensions.CustomResourceDefinitionStatus: conditions=1 *apiextensions.CustomResourceDefinitionCondition
apiextensions.CustomResourceDefinitionCondition: type=1 s; status=2 s; lastTransitionTime=3 meta.Time; reason=4 s; message=5 s
apiextensions.JSONSchemaProps: id=1 s; schema=2 s; ref=3 s; description=4 s; type=5 s; format=6 s; title=7 s; maximum=9 d; maxLength=13 l; pattern=15 s; required=23 *s; allOf=25 *apiextensions.JSONSchemaProps; not=28 apiextensions.JSONSchemaProps; properties=29 map:apiextensions.JSONSchemaProps
";

/// The package behind a prefix of the schema text.
fn package(alias: &str) -> String {
    match alias {
        "meta" => "k8s.io.apimachinery.pkg.apis.meta.v1".to_string(),
        "resource" => "k8s.io.apimachinery.pkg.api.resource".to_string(),
        "intstr" => "k8s.io.apimachinery.pkg.util.intstr".to_string(),
        "runtime" => "k8s.io.apimachinery.pkg.runtime".to_string(),
        "apiextensions" => {
            "k8s.io.apiextensions_apiserver.pkg.apis.apiextensions.v1".to_string()
        }
        other => format!("k8s.io.api.{}.v1", other),
    }
}

fn full_name(name: &str) -> String {
    let (alias, message) = name.split_once('.').unwrap();
    format!(".{}.{}", package(alias), message)
}

/// The descriptor of a field: name, number, label, type, message type and JSON
/// name.
fn field_descriptor(name: &str, field_number: u64, label: u64, kind: &str) -> Vec<u8> {
    let mut parts = vec![text(1, name), number(3, field_number), number(4, label)];
    match kind {
        "s" => parts.push(number(5, 9)),
        "b" => parts.push(number(5, 12)),
        "t" => parts.push(number(5, 8)),
        "i" => parts.push(number(5, 5)),
        "l" => parts.push(number(5, 3)),
        "d" => parts.push(number(5, 1)),
        other => {
            parts.push(number(5, 11));
            parts.push(text(6, other));
        }
    }
    parts.push(text(10, name));
    message(&parts)
}

/// A type of the schema text, with messages by their full names.
fn resolved(kind: &str) -> String {
    if kind.contains('.') {
        full_name(kind)
    } else {
        kind.to_string()
    }
}

/// The compiled descriptor set of the schema text.
fn descriptor_bytes() -> Vec<u8> {
    let mut set = Vec::new();
    for line in SCHEMA.lines() {
        let (name, fields) = line.split_once(": ").unwrap();
        let (alias, message_name) = name.split_once('.').unwrap();
        let mut parts = vec![text(1, message_name)];
        for part in fields.split("; ") {
            let (field_name, rest) = part.split_once('=').unwrap();
            let (field_number, kind) = rest.split_once(' ').unwrap();
            let field_number: u64 = field_number.parse().unwrap();
            let field = if let Some(value) = kind.strip_prefix("map:") {
                let entry_name = format!("{}Entry", field_name);
                let entry = message(&[
                    text(1, &entry_name),
                    encode_ld_field(2, &field_descriptor("key", 1, 1, "s")),
                    encode_ld_field(2, &field_descriptor("value", 2, 1, &resolved(value))),
                    encode_ld_field(7, &number(7, 1)),
                ]);
                parts.push(encode_ld_field(3, &entry));
                let entry_type = format!("{}.{}", full_name(name), entry_name);
                field_descriptor(field_name, field_number, 3, &entry_type)
            } else if let Some(element) = kind.strip_prefix('*') {
                field_descriptor(field_name, field_number, 3, &resolved(element))
            } else {
                field_descriptor(field_name, field_number, 1, &resolved(kind))
            };
            parts.push(encode_ld_field(2, &field));
        }
        let file = message(&[
            text(2, &package(alias)),
            encode_ld_field(4, &message(&parts)),
        ]);
        set.extend_from_slice(&encode_ld_field(1, &file));
    }
    set
}

fn schema() -> Schema {
    Schema {
        index: message_index(&descriptor_bytes()).unwrap(),
        exceptions: Exceptions::kubernetes(),
    }
}

fn to_value(json: &Json) -> serde_json::Value {
    match json {
        Json::Null => serde_json::Value::Null,
        Json::Bool(b) => serde_json::Value::Bool(*b),
        Json::Int(i) => serde_json::Value::from(*i),
        Json::UInt(i) => serde_json::Value::from(*i),
        Json::Double(bits) => serde_json::Value::from(f64::from_bits(*bits)),
        Json::Float(bits) => serde_json::Value::from(f32::from_bits(*bits)),
        Json::Str(s) => serde_json::Value::String(s.clone()),
        Json::Raw(text) => serde_json::from_str(text).unwrap(),
        Json::Array(items) => serde_json::Value::Array(items.iter().map(to_value).collect()),
        Json::Object(members) => serde_json::Value::Object(
            members.iter().map(|(name, value)| (name.clone(), to_value(value))).collect(),
        ),
    }
}

fn decode_versioned(kind: &str, api_version: &str, raw: &[u8]) -> Option<serde_json::Value> {
    decode_proto_by_kind_and_version(&schema(), kind, api_version, raw).map(|j| to_value(&j))
}

fn decode(kind: &str, raw: &[u8]) -> Option<serde_json::Value> {
    decode_versioned(kind, "", raw)
}

fn keys(root: &str) -> Vec<String> {
    let schema = schema();
    assert!(types_are_known(&schema.index, &schema.exceptions, root));
    let keys = expected_json_keys(&schema.index, &schema.exceptions, root);
    keys.to_vec()
}

fn has(keys: &[String], key: &str) -> bool {
    keys.iter().any(|k| k == key)
}

#[test]
fn derives_lease_spec_keys_matching_the_proto() {
    let mut expected: Vec<String> = [
        "holderIdentity",
        "leaseDurationSeconds",
        "acquireTime",
        "renewTime",
        "leaseTransitions",
        "strategy",
        "preferredHolder",
    ]
    .iter()
    .map(|s| s.to_string())
    .collect();
    expected.sort();
    assert_eq!(keys(".k8s.io.api.coordination.v1.LeaseSpec"), expected);
}

#[test]
fn does_not_descend_into_scalar_wrapper_messages() {
    let keys = keys(".k8s.io.api.coordination.v1.LeaseSpec");
    assert!(!has(&keys, "seconds") && !has(&keys, "nanos"));
}

#[test]
fn treats_map_fields_as_a_single_key() {
    let keys = keys(".k8s.io.apimachinery.pkg.apis.meta.v1.ObjectMeta");
    assert!(has(&keys, "labels.__sentinel__") && has(&keys, "annotations.__sentinel__"));
    assert!(!has(&keys, "key") && !has(&keys, "value"));
}

#[test]
fn inlines_localobjectreference_embeds_in_configmap_sources() {
    for msg in [
        ".k8s.io.api.core.v1.ConfigMapEnvSource",
        ".k8s.io.api.core.v1.ConfigMapKeySelector",
        ".k8s.io.api.core.v1.ConfigMapProjection",
        ".k8s.io.api.core.v1.ConfigMapVolumeSource",
    ] {
        let keys = keys(msg);
        assert!(has(&keys, "name"));
        assert!(!has(&keys, "localObjectReference"));
    }
}

#[test]
fn inlines_localobjectreference_embeds_in_secret_sources() {
    for msg in [
        ".k8s.io.api.core.v1.SecretEnvSource",
        ".k8s.io.api.core.v1.SecretKeySelector",
        ".k8s.io.api.core.v1.SecretProjection",
    ] {
        let keys = keys(msg);
        assert!(has(&keys, "name"));
        assert!(!has(&keys, "localObjectReference"));
    }
}

#[test]
fn inlines_ephemeralcontainercommon_fields_onto_ephemeralcontainer() {
    let keys = keys(".k8s.io.api.core.v1.EphemeralContainer");
    assert!(has(&keys, "name") && has(&keys, "image"));
    assert!(!has(&keys, "ephemeralContainerCommon"));
}

#[test]
fn inlines_persistentvolumesource_fields_onto_persistentvolumespec() {
    let keys = keys(".k8s.io.api.core.v1.PersistentVolumeSpec");
    assert!(has(&keys, "nfs.path") && has(&keys, "hostPath.path"));
    assert!(!has(&keys, "persistentVolumeSource"));
}

#[test]
fn inlines_volumesource_fields_onto_volume() {
    let keys = keys(".k8s.io.api.core.v1.Volume");
    assert!(has(&keys, "hostPath.path") && has(&keys, "emptyDir.medium"));
    assert!(!has(&keys, "volumeSource"));
}

#[test]
fn inlines_probehandler_fields_onto_probe() {
    let keys = keys(".k8s.io.api.core.v1.Probe");
    assert!(has(&keys, "exec.command") && has(&keys, "httpGet.path"));
    assert!(!has(&keys, "handler"));
}

#[test]
fn terminates_on_self_referential_messages() {
    let keys = keys(
        ".k8s.io.apiextensions_apiserver.pkg.apis.apiextensions.v1.JSONSchemaProps",
    );
    assert!(has(&keys, "$ref") && has(&keys, "$schema"));
    assert!(has(&keys, "allOf") && has(&keys, "properties.__sentinel__"));
}

#[test]
fn walk_emits_dotted_leaf_paths_not_bare_field_names() {
    let keys = keys(".k8s.io.api.core.v1.Pod");
    assert!(has(&keys, "spec.containers.name"));
    assert!(!has(&keys, "name"));
}

#[test]
fn lowercases_go_style_capitalised_field_names() {
    let keys = keys(".k8s.io.api.core.v1.DaemonEndpoint");
    assert!(has(&keys, "port") && !has(&keys, "Port"));
}

#[test]
fn decode_namespace_proto_extracts_name() {
    let obj_meta = encode_length_delimited(1, b"smoke-test");
    let namespace_proto = encode_length_delimited(1, &obj_meta);
    let result = decode("Namespace", &namespace_proto).unwrap();
    assert_eq!(result["kind"], "Namespace");
    assert_eq!(result["apiVersion"], "v1");
    assert_eq!(result["metadata"]["name"], "smoke-test");
    assert!(result["metadata"]["creationTimestamp"].is_null());
}

#[test]
fn decode_namespace_proto_extracts_labels_and_annotations() {
    let mut obj_meta = encode_length_delimited(1, b"ns");
    let mut label_entry = encode_length_delimited(1, b"env");
    label_entry.extend_from_slice(&encode_length_delimited(2, b"test"));
    obj_meta.extend_from_slice(&encode_length_delimited(11, &label_entry));
    let mut annot_entry = encode_length_delimited(1, b"note");
    annot_entry.extend_from_slice(&encode_length_delimited(2, b"hi"));
    obj_meta.extend_from_slice(&encode_length_delimited(12, &annot_entry));
    let namespace_proto = encode_length_delimited(1, &obj_meta);
    let result = decode("Namespace", &namespace_proto).unwrap();
    assert_eq!(result["metadata"]["name"], "ns");
    assert_eq!(result["metadata"]["labels"]["env"], "test");
    assert_eq!(result["metadata"]["annotations"]["note"], "hi");
}

#[test]
fn decode_namespace_proto_returns_none_for_garbage() {
    assert!(decode("Namespace", &[0xff, 0xff, 0xff]).is_none());
}

#[test]
fn full_kubectl_create_namespace_smoke_regression() {
    let mut obj_meta = encode_length_delimited(1, b"smoke-test");
    obj_meta.extend_from_slice(&encode_length_delimited(8, &[]));
    let namespace_proto = encode_length_delimited(1, &obj_meta);
    let type_meta: Vec<u8> = {
        let mut t = encode_length_delimited(1, b"v1");
        t.extend_from_slice(&encode_length_delimited(2, b"Namespace"));
        t
    };
    let mut unknown = encode_length_delimited(1, &type_meta);
    unknown.extend_from_slice(&encode_length_delimited(2, &namespace_proto));
    unknown.extend_from_slice(&encode_length_delimited(4,
        b"application/vnd.kubernetes.protobuf"));
    let mut body = K8S_PROTO_MAGIC.to_vec();
    body.extend_from_slice(&unknown);
    let env = decode_k8s_proto_envelope(&body).unwrap();
    assert_eq!(env.content_type, "application/vnd.kubernetes.protobuf");
    let json = decode("Namespace", &env.raw).unwrap();
    assert_eq!(json["metadata"]["name"], "smoke-test");
    assert_eq!(json["kind"], "Namespace");
    assert_eq!(json["apiVersion"], "v1");
}

#[test]
fn decode_configmap_proto_extracts_name_namespace_and_data() {
    let mut obj_meta = encode_length_delimited(1, b"smoke-cm");
    obj_meta.extend_from_slice(&encode_length_delimited(3, b"smoke-test"));
    let mut data_entry = encode_length_delimited(1, b"key");
    data_entry.extend_from_slice(&encode_length_delimited(2, b"value"));
    let mut configmap_proto = encode_length_delimited(1, &obj_meta);
    configmap_proto.extend_from_slice(&encode_length_delimited(2, &data_entry));
    let result = decode("ConfigMap", &configmap_proto).unwrap();
    assert_eq!(result["kind"], "ConfigMap");
    assert_eq!(result["apiVersion"], "v1");
    assert_eq!(result["metadata"]["name"], "smoke-cm");
    assert_eq!(result["metadata"]["namespace"], "smoke-test");
    assert_eq!(result["data"]["key"], "value");
    assert!(result["metadata"]["creationTimestamp"].is_null());
}

#[test]
fn decode_configmap_proto_preserves_binary_data() {
    let mut obj_meta = encode_length_delimited(1, b"bin-cm");
    obj_meta.extend_from_slice(&encode_length_delimited(3, b"default"));
    let mut binary_entry = encode_length_delimited(1, b"dump.bin");
    binary_entry.extend_from_slice(&encode_length_delimited(2, b"hello"));
    let mut configmap_proto = encode_length_delimited(1, &obj_meta);
    configmap_proto.extend_from_slice(&encode_length_delimited(3, &binary_entry));
    let result = decode("ConfigMap", &configmap_proto).unwrap();
    assert_eq!(result["kind"], "ConfigMap");
    assert_eq!(result["metadata"]["name"], "bin-cm");
    let binary_data = result["binaryData"]["dump.bin"].as_str().unwrap();
    let decoded = base64::engine::general_purpose::STANDARD.decode(binary_data).unwrap();
    assert_eq!(decoded, b"hello");
}

#[test]
fn decode_core_proto_by_kind_dispatches_correctly() {
    let mut obj_meta = encode_length_delimited(1, b"test-ns");
    let namespace_proto = encode_length_delimited(1, &obj_meta);
    let ns_json = decode("Namespace", &namespace_proto).unwrap();
    assert_eq!(ns_json["kind"], "Namespace");
    assert_eq!(ns_json["metadata"]["name"], "test-ns");
    obj_meta = encode_length_delimited(1, b"test-cm");
    let configmap_proto = encode_length_delimited(1, &obj_meta);
    let cm_json = decode("ConfigMap", &configmap_proto).unwrap();
    assert_eq!(cm_json["kind"], "ConfigMap");
    assert_eq!(cm_json["metadata"]["name"], "test-cm");
    assert!(decode("UnknownKind", &namespace_proto).is_none());
}

#[test]
fn decode_core_proto_by_kind_dispatches_podtemplate() {
    let mut obj_meta = encode_length_delimited(1, b"chunking-pt-0");
    obj_meta.extend_from_slice(&encode_length_delimited(3, b"default"));
    let pt_proto = encode_length_delimited(1, &obj_meta);
    let result = decode("PodTemplate", &pt_proto).unwrap();
    assert_eq!(result["kind"], "PodTemplate");
    assert_eq!(result["apiVersion"], "v1");
    assert_eq!(result["metadata"]["name"], "chunking-pt-0");
    assert_eq!(result["metadata"]["namespace"], "default");
    assert!(result["metadata"]["creationTimestamp"].is_null());
    assert!(result["template"].is_object());
}

#[test]
fn decode_pod_proto_extracts_name_namespace_and_containers() {
    let mut obj_meta = encode_length_delimited(1, b"test-pod");
    obj_meta.extend_from_slice(&encode_length_delimited(3, b"default"));
    let mut container = encode_length_delimited(1, b"myapp");
    container.extend_from_slice(&encode_length_delimited(2, b"myapp:latest"));
    container.extend_from_slice(&encode_length_delimited(14, b"IfNotPresent"));
    let pod_spec = encode_length_delimited(2, &container);
    let mut pod_proto = encode_length_delimited(1, &obj_meta);
    pod_proto.extend_from_slice(&encode_length_delimited(2, &pod_spec));
    let result = decode("Pod", &pod_proto).unwrap();
    assert_eq!(result["kind"], "Pod");
    assert_eq!(result["apiVersion"], "v1");
    assert_eq!(result["metadata"]["name"], "test-pod");
    assert_eq!(result["metadata"]["namespace"], "default");
    assert!(result["metadata"]["creationTimestamp"].is_null());
    let containers = result["spec"]["containers"].as_array().unwrap();
    assert_eq!(containers.len(), 1);
    assert_eq!(containers[0]["name"], "myapp");
    assert_eq!(containers[0]["image"], "myapp:latest");
    assert_eq!(containers[0]["imagePullPolicy"], "IfNotPresent");
}

#[test]
fn decode_pod_proto_preserves_container_ports_with_host_port() {
    let mut port = encode_length_delimited(1, b"http");
    port.extend_from_slice(&encode_varint(2u64 << 3));
    port.extend_from_slice(&encode_varint(8080));
    port.extend_from_slice(&encode_varint(3u64 << 3));
    port.extend_from_slice(&encode_varint(8080));
    port.extend_from_slice(&encode_length_delimited(4, b"TCP"));
    let mut container = encode_length_delimited(1, b"webserver");
    container.extend_from_slice(&encode_length_delimited(2, b"agnhost:2.43"));
    container.extend_from_slice(&encode_length_delimited(6, &port));
    let mut obj_meta = encode_length_delimited(1, b"test-pod");
    obj_meta.extend_from_slice(&encode_length_delimited(3, b"statefulset-ns"));
    let pod_spec = encode_length_delimited(2, &container);
    let mut pod_proto = encode_length_delimited(1, &obj_meta);
    pod_proto.extend_from_slice(&encode_length_delimited(2, &pod_spec));
    let result = decode("Pod", &pod_proto).unwrap();
    let ports = result["spec"]["containers"][0]["ports"].as_array().unwrap();
    assert_eq!(ports.len(), 1);
    assert_eq!(ports[0]["hostPort"], 8080);
    assert_eq!(ports[0]["containerPort"], 8080);
    assert_eq!(ports[0]["protocol"], "TCP");
    assert_eq!(ports[0]["name"], "http");
}

#[test]
fn decode_pod_proto_preserves_runtime_class_name() {
    let mut obj_meta = encode_length_delimited(1, b"rc-pod");
    obj_meta.extend_from_slice(&encode_length_delimited(3, b"test-ns"));
    let mut container = encode_length_delimited(1, b"c");
    container.extend_from_slice(&encode_length_delimited(2, b"img"));
    let mut pod_spec = encode_length_delimited(2, &container);
    pod_spec.extend_from_slice(&encode_length_delimited(29, b"my-runtime-class"));
    let mut pod_proto = encode_length_delimited(1, &obj_meta);
    pod_proto.extend_from_slice(&encode_length_delimited(2, &pod_spec));
    let result = decode("Pod", &pod_proto).unwrap();
    assert_eq!(result["spec"]["runtimeClassName"], "my-runtime-class");
}

#[test]
fn decode_pod_proto_preserves_active_deadline_seconds_for_terminating_scope_quota() {
    fn encode_varint_field(field_number: u64, value: u64) -> Vec<u8> {
        let tag = field_number << 3;
        let mut out = Vec::new();
        let mut t = tag;
        loop {
            let byte = (t & 0x7f) as u8;
            t >>= 7;
            if t == 0 {
                out.push(byte);
                break;
            }
            out.push(byte | 0x80);
        }
        let mut v = value;
        loop {
            let byte = (v & 0x7f) as u8;
            v >>= 7;
            if v == 0 {
                out.push(byte);
                break;
            }
            out.push(byte | 0x80);
        }
        out
    }
    let mut obj_meta = encode_length_delimited(1, b"terminating-pod");
    obj_meta.extend_from_slice(&encode_length_delimited(3, b"test-ns"));
    let mut container = encode_length_delimited(1, b"c");
    container.extend_from_slice(&encode_length_delimited(2, b"img"));
    let mut pod_spec = encode_length_delimited(2, &container);
    pod_spec.extend_from_slice(&encode_varint_field(5, 600));
    let mut pod_proto = encode_length_delimited(1, &obj_meta);
    pod_proto.extend_from_slice(&encode_length_delimited(2, &pod_spec));
    let result = decode("Pod", &pod_proto).unwrap();
    assert_eq!(result["spec"]["activeDeadlineSeconds"], 600);
}

#[test]
fn enable_service_links_survives_proto_decode_so_kubelet_can_build_pod_env() {
    let encode_varint_field = |field_number: u64, value: u64| -> Vec<u8> {
        let tag = field_number << 3;
        let mut out = encode_varint(tag);
        out.extend_from_slice(&encode_varint(value));
        out
    };
    let mut obj_meta = encode_length_delimited(1, b"esl-pod");
    obj_meta.extend_from_slice(&encode_length_delimited(3, b"test-ns"));
    let mut container = encode_length_delimited(1, b"c");
    container.extend_from_slice(&encode_length_delimited(2, b"img"));
    let mut pod_spec = encode_length_delimited(2, &container);
    pod_spec.extend_from_slice(&encode_varint_field(30, 0));
    let mut pod_proto = encode_length_delimited(1, &obj_meta);
    pod_proto.extend_from_slice(&encode_length_delimited(2, &pod_spec));
    let result = decode("Pod", &pod_proto).unwrap();
    assert_eq!(result["spec"]["enableServiceLinks"], false);
    let mut container2 = encode_length_delimited(1, b"c");
    container2.extend_from_slice(&encode_length_delimited(2, b"img"));
    let pod_spec2 = encode_length_delimited(2, &container2);
    let mut obj_meta2 = encode_length_delimited(1, b"esl-pod-absent");
    obj_meta2.extend_from_slice(&encode_length_delimited(3, b"test-ns"));
    let mut pod_proto2 = encode_length_delimited(1, &obj_meta2);
    pod_proto2.extend_from_slice(&encode_length_delimited(2, &pod_spec2));
    let result2 = decode("Pod", &pod_proto2).unwrap();
    assert!(result2["spec"]["enableServiceLinks"].is_null());
}

#[test]
fn decode_core_proto_by_kind_dispatches_pod() {
    let mut obj_meta = encode_length_delimited(1, b"dispatch-pod");
    obj_meta.extend_from_slice(&encode_length_delimited(3, b"test"));
    let mut container = encode_length_delimited(1, b"c");
    container.extend_from_slice(&encode_length_delimited(2, b"img"));
    let pod_spec = encode_length_delimited(2, &container);
    let mut pod_proto = encode_length_delimited(1, &obj_meta);
    pod_proto.extend_from_slice(&encode_length_delimited(2, &pod_spec));
    let result = decode("Pod", &pod_proto).unwrap();
    assert_eq!(result["kind"], "Pod");
    assert_eq!(result["apiVersion"], "v1");
    assert_eq!(result["metadata"]["name"], "dispatch-pod");
    assert_eq!(result["metadata"]["namespace"], "test");
    assert_eq!(result["spec"]["containers"][0]["name"], "c");
    assert_eq!(result["spec"]["containers"][0]["image"], "img");
}

#[test]
fn decode_pod_proto_handles_pod_with_no_containers() {
    let obj_meta = encode_length_delimited(1, b"empty-pod");
    let pod_proto = encode_length_delimited(1, &obj_meta);
    let result = decode("Pod", &pod_proto).unwrap();
    assert_eq!(result["kind"], "Pod");
    assert_eq!(result["metadata"]["name"], "empty-pod");
    let containers = result["spec"]["containers"].as_array().unwrap();
    assert!(containers.is_empty());
}

#[test]
fn decode_pod_proto_with_restart_policy_survives_decode() {
    let mut obj_meta = encode_length_delimited(1, b"nginx");
    obj_meta.extend_from_slice(&encode_length_delimited(3, b"default"));
    let mut container = encode_length_delimited(1, b"nginx");
    container.extend_from_slice(&encode_length_delimited(2, b"nginx:latest"));
    let mut pod_spec = encode_length_delimited(2, &container);
    pod_spec.extend_from_slice(&encode_length_delimited(3, b"Always"));
    let mut pod_proto = encode_length_delimited(1, &obj_meta);
    pod_proto.extend_from_slice(&encode_length_delimited(2, &pod_spec));
    let result = decode("Pod", &pod_proto).unwrap();
    assert_eq!(result["kind"], "Pod");
    assert_eq!(result["apiVersion"], "v1");
    assert_eq!(result["metadata"]["name"], "nginx");
    assert_eq!(result["metadata"]["namespace"], "default");
    assert_eq!(result["spec"]["restartPolicy"], "Always");
    let containers = result["spec"]["containers"].as_array().unwrap();
    assert_eq!(containers.len(), 1);
    assert_eq!(containers[0]["name"], "nginx");
    assert_eq!(containers[0]["image"], "nginx:latest");
}

#[test]
fn decode_pod_proto_with_service_account_and_node_name() {
    let mut obj_meta = encode_length_delimited(1, b"app");
    obj_meta.extend_from_slice(&encode_length_delimited(3, b"default"));
    let mut container = encode_length_delimited(1, b"app");
    container.extend_from_slice(&encode_length_delimited(2, b"app:v1"));
    let mut pod_spec = encode_length_delimited(2, &container);
    pod_spec.extend_from_slice(&encode_length_delimited(3, b"Always"));
    pod_spec.extend_from_slice(&encode_length_delimited(8, b"my-sa"));
    pod_spec.extend_from_slice(&encode_length_delimited(10, b"node-1"));
    let mut pod_proto = encode_length_delimited(1, &obj_meta);
    pod_proto.extend_from_slice(&encode_length_delimited(2, &pod_spec));
    let result = decode("Pod", &pod_proto).unwrap();
    assert_eq!(result["kind"], "Pod");
    assert_eq!(result["metadata"]["name"], "app");
    assert_eq!(result["spec"]["serviceAccountName"], "my-sa");
    assert_eq!(result["spec"]["nodeName"], "node-1");
}

#[test]
fn decode_pod_proto_preserves_hostname_subdomain_and_init_containers() {
    let mut obj_meta = encode_length_delimited(1, b"myapp");
    obj_meta.extend_from_slice(&encode_length_delimited(3, b"default"));
    let mut container = encode_length_delimited(1, b"main");
    container.extend_from_slice(&encode_length_delimited(2, b"nginx:latest"));
    let mut init_container = encode_length_delimited(1, b"init");
    init_container.extend_from_slice(&encode_length_delimited(2, b"busybox:latest"));
    let mut pod_spec = encode_length_delimited(2, &container);
    pod_spec.extend_from_slice(&encode_length_delimited(16, b"my-custom-host"));
    pod_spec.extend_from_slice(&encode_length_delimited(17, b"test-sub"));
    pod_spec.extend_from_slice(&encode_length_delimited(20, &init_container));
    let mut pod_proto = encode_length_delimited(1, &obj_meta);
    pod_proto.extend_from_slice(&encode_length_delimited(2, &pod_spec));
    let result = decode("Pod", &pod_proto).unwrap();
    assert_eq!(result["spec"]["hostname"], "my-custom-host");
    assert_eq!(result["spec"]["subdomain"], "test-sub");
    let init_containers = result["spec"]["initContainers"].as_array().unwrap();
    assert_eq!(init_containers.len(), 1);
    assert_eq!(init_containers[0]["name"], "init");
    assert_eq!(init_containers[0]["image"], "busybox:latest");
}

#[test]
fn decode_pod_proto_preserves_readiness_probe_initial_delay() {
    let mut obj_meta = encode_length_delimited(1, b"app");
    obj_meta.extend_from_slice(&encode_length_delimited(3, b"default"));
    let mut readiness_probe = encode_varint(2u64 << 3);
    readiness_probe.extend_from_slice(&encode_varint(30));
    readiness_probe.extend_from_slice(&encode_varint(3u64 << 3));
    readiness_probe.extend_from_slice(&encode_varint(5));
    readiness_probe.extend_from_slice(&encode_varint(4u64 << 3));
    readiness_probe.extend_from_slice(&encode_varint(10));
    let mut container = encode_length_delimited(1, b"app");
    container.extend_from_slice(&encode_length_delimited(2, b"app:v1"));
    container.extend_from_slice(&encode_length_delimited(11, &readiness_probe));
    let pod_spec = encode_length_delimited(2, &container);
    let mut pod_proto = encode_length_delimited(1, &obj_meta);
    pod_proto.extend_from_slice(&encode_length_delimited(2, &pod_spec));
    let result = decode("Pod", &pod_proto).unwrap();
    assert_eq!(result["metadata"]["name"], "app");
    let probe = &result["spec"]["containers"][0]["readinessProbe"];
    assert!(probe.is_object());
    assert_eq!(probe["initialDelaySeconds"], 30);
    assert_eq!(probe["timeoutSeconds"], 5);
    assert_eq!(probe["periodSeconds"], 10);
    assert!(result["spec"]["containers"][0]["livenessProbe"].is_null());
    assert!(result["spec"]["containers"][0]["startupProbe"].is_null());
}

#[test]
fn decode_pod_proto_preserves_prestop_exec_hook() {
    let mut exec_action = encode_length_delimited(1, b"sh");
    exec_action.extend_from_slice(&encode_length_delimited(1, b"-c"));
    exec_action.extend_from_slice(&encode_length_delimited(1, b"echo bye"));
    let handler = encode_length_delimited(1, &exec_action);
    let lifecycle = encode_length_delimited(2, &handler);
    let mut container = encode_length_delimited(1, b"app");
    container.extend_from_slice(&encode_length_delimited(2, b"app:v1"));
    container.extend_from_slice(&encode_length_delimited(12, &lifecycle));
    let mut obj_meta = encode_length_delimited(1, b"app");
    obj_meta.extend_from_slice(&encode_length_delimited(3, b"default"));
    let pod_spec = encode_length_delimited(2, &container);
    let mut pod_proto = encode_length_delimited(1, &obj_meta);
    pod_proto.extend_from_slice(&encode_length_delimited(2, &pod_spec));
    let result = decode("Pod", &pod_proto).unwrap();
    assert_eq!(result["metadata"]["name"], "app");
    let lifecycle = &result["spec"]["containers"][0]["lifecycle"];
    assert!(lifecycle.is_object());
    let pre_stop = &lifecycle["preStop"];
    assert!(pre_stop.is_object());
    let cmd = pre_stop["exec"]["command"].as_array().unwrap();
    assert_eq!(cmd.len(), 3);
    assert_eq!(cmd[0], "sh");
    assert_eq!(cmd[1], "-c");
    assert_eq!(cmd[2], "echo bye");
    assert!(lifecycle["postStart"].is_null());
}

#[test]
fn decode_pod_proto_preserves_poststart_http_get_hook() {
    let mut int_or_string = encode_varint(1u64 << 3);
    int_or_string.extend_from_slice(&encode_varint(0));
    int_or_string.extend_from_slice(&encode_varint(2u64 << 3));
    int_or_string.extend_from_slice(&encode_varint(8080));
    let mut http_get_action = encode_length_delimited(1, b"/started");
    http_get_action.extend_from_slice(&encode_length_delimited(2, &int_or_string));
    http_get_action.extend_from_slice(&encode_length_delimited(3, b"hook-svc"));
    let handler = encode_length_delimited(2, &http_get_action);
    let lifecycle = encode_length_delimited(1, &handler);
    let mut container = encode_length_delimited(1, b"hook");
    container.extend_from_slice(&encode_length_delimited(2, b"pause:3.10"));
    container.extend_from_slice(&encode_length_delimited(12, &lifecycle));
    let mut obj_meta = encode_length_delimited(1, b"hook");
    obj_meta.extend_from_slice(&encode_length_delimited(3, b"default"));
    let pod_spec = encode_length_delimited(2, &container);
    let mut pod_proto = encode_length_delimited(1, &obj_meta);
    pod_proto.extend_from_slice(&encode_length_delimited(2, &pod_spec));
    let result = decode("Pod", &pod_proto).unwrap();
    assert_eq!(result["metadata"]["name"], "hook");
    let lifecycle = &result["spec"]["containers"][0]["lifecycle"];
    assert!(lifecycle.is_object());
    let post_start = &lifecycle["postStart"];
    assert!(post_start.is_object());
    assert!(post_start["httpGet"].is_object());
    assert_eq!(post_start["httpGet"]["path"], "/started");
    assert_eq!(post_start["httpGet"]["port"], 8080);
    assert_eq!(post_start["httpGet"]["host"], "hook-svc");
    assert!(lifecycle["preStop"].is_null());
}

#[test]
fn decode_pod_proto_preserves_readiness_probe_http_get_path() {
    let http_get_action = encode_length_delimited(1, b"/healthz");
    let probe_handler = encode_length_delimited(2, &http_get_action);
    let mut probe = encode_length_delimited(1, &probe_handler);
    probe.extend_from_slice(&encode_varint(2u64 << 3));
    probe.extend_from_slice(&encode_varint(5));
    let mut container = encode_length_delimited(1, b"web");
    container.extend_from_slice(&encode_length_delimited(2, b"nginx:latest"));
    container.extend_from_slice(&encode_length_delimited(11, &probe));
    let mut obj_meta = encode_length_delimited(1, b"web");
    obj_meta.extend_from_slice(&encode_length_delimited(3, b"default"));
    let pod_spec = encode_length_delimited(2, &container);
    let mut pod_proto = encode_length_delimited(1, &obj_meta);
    pod_proto.extend_from_slice(&encode_length_delimited(2, &pod_spec));
    let result = decode("Pod", &pod_proto).unwrap();
    assert_eq!(result["metadata"]["name"], "web");
    let probe = &result["spec"]["containers"][0]["readinessProbe"];
    assert!(probe.is_object());
    assert!(probe["httpGet"].is_object());
    assert_eq!(probe["httpGet"]["path"], "/healthz");
    assert_eq!(probe["initialDelaySeconds"], 5);
}

#[test]
fn decode_pod_proto_preserves_liveness_probe_grpc_port() {
    let mut grpc_action = encode_varint(1u64 << 3);
    grpc_action.extend_from_slice(&encode_varint(8080));
    let probe_handler = encode_length_delimited(4, &grpc_action);
    let mut probe = encode_length_delimited(1, &probe_handler);
    probe.extend_from_slice(&encode_varint(4u64 << 3));
    probe.extend_from_slice(&encode_varint(10));
    let mut container = encode_length_delimited(1, b"grpc-app");
    container.extend_from_slice(&encode_length_delimited(2, b"grpc:v1"));
    container.extend_from_slice(&encode_length_delimited(10, &probe));
    let mut obj_meta = encode_length_delimited(1, b"grpc-app");
    obj_meta.extend_from_slice(&encode_length_delimited(3, b"default"));
    let pod_spec = encode_length_delimited(2, &container);
    let mut pod_proto = encode_length_delimited(1, &obj_meta);
    pod_proto.extend_from_slice(&encode_length_delimited(2, &pod_spec));
    let result = decode("Pod", &pod_proto).unwrap();
    assert_eq!(result["metadata"]["name"], "grpc-app");
    let probe = &result["spec"]["containers"][0]["livenessProbe"];
    assert!(probe.is_object());
    assert!(probe["grpc"].is_object());
    assert_eq!(probe["grpc"]["port"], 8080);
    assert_eq!(probe["periodSeconds"], 10);
}

#[test]
fn decode_node_proto_extracts_name() {
    let obj_meta = encode_length_delimited(1, b"node-1");
    let node_proto = encode_length_delimited(1, &obj_meta);
    let result = decode("Node", &node_proto).unwrap();
    assert_eq!(result["kind"], "Node");
    assert_eq!(result["apiVersion"], "v1");
    assert_eq!(result["metadata"]["name"], "node-1");
    assert!(result["metadata"]["creationTimestamp"].is_null());
}

#[test]
fn decode_node_proto_preserves_spec_fields() {
    let obj_meta = encode_length_delimited(1, b"node-1");
    let mut node_spec = Vec::new();
    node_spec.extend_from_slice(&encode_length_delimited(1, b"10.244.0.0/24"));
    node_spec.extend_from_slice(&encode_length_delimited(3, b"aws://us-east-1a/i-1234"));
    node_spec.extend_from_slice(&encode_length_delimited(7, b"10.244.0.0/24"));
    let mut node_proto = encode_length_delimited(1, &obj_meta);
    node_proto.extend_from_slice(&encode_length_delimited(2, &node_spec));
    let result = decode("Node", &node_proto).unwrap();
    assert_eq!(result["kind"], "Node");
    assert_eq!(result["apiVersion"], "v1");
    assert_eq!(result["metadata"]["name"], "node-1");
    assert_eq!(result["spec"]["podCIDR"], "10.244.0.0/24");
    assert_eq!(result["spec"]["providerID"], "aws://us-east-1a/i-1234");
    assert_eq!(result["spec"]["podCIDRs"][0], "10.244.0.0/24");
}

#[test]
fn decode_node_proto_with_unknown_spec_fields_does_not_panic() {
    let obj_meta = encode_length_delimited(1, b"node-2");
    let mut node_spec = Vec::new();
    node_spec.extend_from_slice(&encode_length_delimited(1, b"10.0.0.0/24"));
    let taint_bytes = encode_length_delimited(3, b"NoSchedule");
    node_spec.extend_from_slice(&encode_length_delimited(5, &taint_bytes));
    let mut node_proto = encode_length_delimited(1, &obj_meta);
    node_proto.extend_from_slice(&encode_length_delimited(2, &node_spec));
    let result = decode("Node", &node_proto).unwrap();
    assert_eq!(result["metadata"]["name"], "node-2");
    assert_eq!(result["spec"]["podCIDR"], "10.0.0.0/24");
}

#[test]
fn decode_node_proto_unschedulable_node_does_not_panic() {
    let obj_meta = encode_length_delimited(1, b"maintenance-node");
    let mut node_spec = Vec::new();
    node_spec.extend_from_slice(&encode_length_delimited(1, b"10.0.1.0/24"));
    node_spec.push(0x20);
    node_spec.push(0x01);
    let mut node_proto = encode_length_delimited(1, &obj_meta);
    node_proto.extend_from_slice(&encode_length_delimited(2, &node_spec));
    let result = decode("Node", &node_proto).unwrap();
    assert_eq!(result["metadata"]["name"], "maintenance-node");
    assert_eq!(result["spec"]["podCIDR"], "10.0.1.0/24");
}

#[test]
fn encode_proto_response_no_illegal_wire_types_namespace_create() {
    let mut obj_meta = encode_length_delimited(1, b"smoke-test");
    obj_meta.extend_from_slice(&encode_length_delimited(8, &[]));
    let namespace_proto = encode_length_delimited(1, &obj_meta);
    let mut ns_json = decode("Namespace", &namespace_proto).unwrap();
    ns_json["status"] = json(r#"{"phase": "Active"}"#);
    ns_json["metadata"]["resourceVersion"] = serde_json::Value::String("1".to_string());
    let json_str = ns_json.to_string();
    let val: serde_json::Value = serde_json::from_str(&json_str).unwrap();
    let encoded = encode_proto_response(&val);
    assert_eq!(&encoded[..4], &[0x6b, 0x38, 0x73, 0x00]);
    let envelope = &encoded[4..];
    let fields = assert_valid_wire_types(envelope);
    let field_numbers: Vec<u64> = fields.iter().map(|(fn_, _, _)| *fn_).collect();
    assert!(field_numbers.contains(&1));
    assert!(field_numbers.contains(&2));
    assert!(field_numbers.contains(&4));
    let type_meta_payload: &[u8] = {
        let mut p = envelope;
        let mut result: &[u8] = &[];
        let mut tmp_pos = 0;
        while tmp_pos < envelope.len() {
            let (tag, rest) = decode_varint(&envelope[tmp_pos..]).unwrap();
            tmp_pos += envelope[tmp_pos..].len() - rest.len();
            let field_number = tag >> 3;
            let wire_type = tag & 0x7;
            if wire_type == 2 {
                let (len, rest2) = decode_varint(&envelope[tmp_pos..]).unwrap();
                tmp_pos += envelope[tmp_pos..].len() - rest2.len();
                if field_number == 1 {
                    result = &envelope[tmp_pos..tmp_pos + len as usize];
                    break;
                }
                tmp_pos += len as usize;
            }
            p = &p[1..];
        }
        result
    };
    let _ = assert_valid_wire_types(type_meta_payload);
    let env = decode_k8s_proto_envelope(&encoded).unwrap();
    let recovered: serde_json::Value = serde_json::from_slice(&env.raw).unwrap();
    assert_eq!(recovered["kind"], "Namespace");
    assert_eq!(recovered["metadata"]["name"], "smoke-test");
    assert_eq!(env.content_type, "application/json");
}

#[test]
fn decode_core_proto_by_kind_dispatches_node() {
    let obj_meta = encode_length_delimited(1, b"test-node");
    let node_proto = encode_length_delimited(1, &obj_meta);
    let result = decode("Node", &node_proto).unwrap();
    assert_eq!(result["kind"], "Node");
    assert_eq!(result["metadata"]["name"], "test-node");
}

#[test]
fn full_kubectl_create_configmap_smoke_regression() {
    let mut obj_meta = encode_length_delimited(1, b"smoke-cm");
    obj_meta.extend_from_slice(&encode_length_delimited(3, b"smoke-test"));
    obj_meta.extend_from_slice(&encode_length_delimited(8, &[]));
    let mut data_entry = encode_length_delimited(1, b"key");
    data_entry.extend_from_slice(&encode_length_delimited(2, b"value"));
    let mut configmap_proto = encode_length_delimited(1, &obj_meta);
    configmap_proto.extend_from_slice(&encode_length_delimited(2, &data_entry));
    let type_meta: Vec<u8> = {
        let mut t = encode_length_delimited(1, b"v1");
        t.extend_from_slice(&encode_length_delimited(2, b"ConfigMap"));
        t
    };
    let mut unknown = encode_length_delimited(1, &type_meta);
    unknown.extend_from_slice(&encode_length_delimited(2, &configmap_proto));
    let mut body = K8S_PROTO_MAGIC.to_vec();
    body.extend_from_slice(&unknown);
    let env = decode_k8s_proto_envelope(&body).unwrap();
    assert_eq!(env.kind, "ConfigMap");
    assert_eq!(env.content_type, "");
    let json = decode(&env.kind, &env.raw).unwrap();
    assert_eq!(json["kind"], "ConfigMap");
    assert_eq!(json["metadata"]["name"], "smoke-cm");
    assert_eq!(json["data"]["key"], "value");
}

#[test]
fn decode_lease_proto_extracts_holder_and_duration() {
    let mut obj_meta = encode_length_delimited(1, b"lima-node");
    obj_meta.extend_from_slice(&encode_length_delimited(3, b"kube-node-lease"));
    let mut lease_spec = encode_length_delimited(1, b"lima-node");
    lease_spec.push(0x10);
    lease_spec.push(0x28);
    let mut lease_proto = encode_length_delimited(1, &obj_meta);
    lease_proto.extend_from_slice(&encode_length_delimited(2, &lease_spec));
    let result = decode("Lease", &lease_proto).unwrap();
    assert_eq!(result["kind"], "Lease");
    assert_eq!(result["apiVersion"], "coordination.k8s.io/v1");
    assert_eq!(result["metadata"]["name"], "lima-node");
    assert_eq!(result["metadata"]["namespace"], "kube-node-lease");
    assert_eq!(result["spec"]["holderIdentity"], "lima-node");
    assert_eq!(result["spec"]["leaseDurationSeconds"], 40);
}

#[test]
fn decode_core_proto_by_kind_dispatches_lease() {
    let obj_meta = encode_length_delimited(1, b"test-node");
    let lease_proto = encode_length_delimited(1, &obj_meta);
    let result = decode("Lease", &lease_proto).unwrap();
    assert_eq!(result["kind"], "Lease");
    assert_eq!(result["metadata"]["name"], "test-node");
}

#[test]
fn decode_lease_proto_preserves_acquire_renew_and_transitions() {
    let mut obj_meta = encode_length_delimited(1, b"kcm-leader");
    obj_meta.extend_from_slice(&encode_length_delimited(3, b"kube-system"));
    let mut lease_spec = encode_length_delimited(1, b"kcm");
    lease_spec.push(0x10);
    lease_spec.push(0x0F);
    let mut acquire_time_msg = encode_varint(1 << 3);
    acquire_time_msg.extend_from_slice(&encode_varint(1_704_067_200u64));
    lease_spec.extend_from_slice(&encode_length_delimited(3, &acquire_time_msg));
    let mut renew_time_msg = encode_varint(1 << 3);
    renew_time_msg.extend_from_slice(&encode_varint(1_704_067_215u64));
    lease_spec.extend_from_slice(&encode_length_delimited(4, &renew_time_msg));
    lease_spec.push(0x28);
    lease_spec.push(0x03);
    let mut lease_proto = encode_length_delimited(1, &obj_meta);
    lease_proto.extend_from_slice(&encode_length_delimited(2, &lease_spec));
    let result = decode("Lease", &lease_proto).unwrap();
    assert_eq!(result["spec"]["acquireTime"], "2024-01-01T00:00:00.000000Z");
    assert_eq!(result["spec"]["renewTime"], "2024-01-01T00:00:15.000000Z");
    assert_eq!(result["spec"]["leaseTransitions"], 3);
}

#[test]
fn decode_lease_proto_negative_microseconds_seconds_does_not_overflow_year() {
    let neg_one_varint: &[u8] = &[0xFF, 0xFF, 0xFF, 0xFF, 0xFF, 0xFF, 0xFF, 0xFF, 0xFF, 0x01];
    let obj_meta = encode_length_delimited(1, b"test-lease");
    let mut renew_time_msg = encode_varint(1 << 3);
    renew_time_msg.extend_from_slice(neg_one_varint);
    let mut lease_spec = encode_length_delimited(4, &renew_time_msg);
    let mut acquire_time_msg = encode_varint(1 << 3);
    acquire_time_msg.extend_from_slice(neg_one_varint);
    lease_spec = {
        let mut s = encode_length_delimited(3, &acquire_time_msg);
        s.extend_from_slice(&lease_spec);
        s
    };
    let mut lease_proto = encode_length_delimited(1, &obj_meta);
    lease_proto.extend_from_slice(&encode_length_delimited(2, &lease_spec));
    let result = decode("Lease", &lease_proto).unwrap();
    assert_eq!(result["spec"]["renewTime"], "1969-12-31T23:59:59.000000Z");
    assert_eq!(result["spec"]["acquireTime"], "1969-12-31T23:59:59.000000Z");
}

#[test]
fn decode_lease_proto_preserves_renew_time_nanoseconds() {
    let mut obj_meta = encode_length_delimited(1, b"test-node");
    obj_meta.extend_from_slice(&encode_length_delimited(3, b"kube-node-lease"));
    let mut renew_time_msg = encode_varint(1 << 3);
    renew_time_msg.extend_from_slice(&encode_varint(1_704_067_215u64));
    renew_time_msg.push(0x10);
    renew_time_msg.extend_from_slice(&encode_varint(123_456_000u64));
    let lease_spec = encode_length_delimited(4, &renew_time_msg);
    let mut lease_proto = encode_length_delimited(1, &obj_meta);
    lease_proto.extend_from_slice(&encode_length_delimited(2, &lease_spec));
    let result = decode("Lease", &lease_proto).unwrap();
    assert_eq!(result["spec"]["renewTime"], "2024-01-01T00:00:15.123456Z");
}

#[test]
fn decode_csinode_proto_extracts_drivers() {
    let obj_meta = encode_length_delimited(1, b"ci-node");
    let mut driver = encode_length_delimited(1, b"csi.example.com");
    driver.extend_from_slice(&encode_length_delimited(2, b"node-abc"));
    let csinode_spec = encode_length_delimited(1, &driver);
    let mut csinode_proto = encode_length_delimited(1, &obj_meta);
    csinode_proto.extend_from_slice(&encode_length_delimited(2, &csinode_spec));
    let result = decode("CSINode", &csinode_proto).unwrap();
    assert_eq!(result["kind"], "CSINode");
    assert_eq!(result["apiVersion"], "storage.k8s.io/v1");
    assert_eq!(result["metadata"]["name"], "ci-node");
    assert_eq!(result["spec"]["drivers"][0]["name"], "csi.example.com");
    assert_eq!(result["spec"]["drivers"][0]["nodeID"], "node-abc");
}

#[test]
fn decode_core_proto_by_kind_dispatches_csinode() {
    let obj_meta = encode_length_delimited(1, b"test-node");
    let csinode_proto = encode_length_delimited(1, &obj_meta);
    let result = decode("CSINode", &csinode_proto).unwrap();
    assert_eq!(result["kind"], "CSINode");
    assert_eq!(result["metadata"]["name"], "test-node");
    assert!(result["spec"]["drivers"].is_array());
}

#[test]
fn decode_csidriver_proto_extracts_metadata_and_spec() {
    let obj_meta = encode_length_delimited(1, b"csi.example.com");
    let mut spec = vec![1u8 << 3, 0u8, 2u8 << 3, 1u8];
    spec.extend_from_slice(&encode_length_delimited(3, b"Ephemeral"));
    let mut csidriver_proto = encode_length_delimited(1, &obj_meta);
    csidriver_proto.extend_from_slice(&encode_length_delimited(2, &spec));
    let result = decode("CSIDriver", &csidriver_proto).unwrap();
    assert_eq!(result["kind"], "CSIDriver");
    assert_eq!(result["apiVersion"], "storage.k8s.io/v1");
    assert_eq!(result["metadata"]["name"], "csi.example.com");
    assert_eq!(result["spec"]["attachRequired"], false);
    assert_eq!(result["spec"]["podInfoOnMount"], true);
    assert_eq!(result["spec"]["volumeLifecycleModes"][0], "Ephemeral");
}

#[test]
fn decode_csidriver_proto_gen_decodes_tokenrequests_which_old_hand_struct_dropped() {
    let obj_meta = encode_length_delimited(1, b"token-driver");
    let mut token_request = encode_length_delimited(1, b"my-audience");
    token_request.push(2 << 3);
    token_request.extend_from_slice(&encode_varint(3600));
    let spec = encode_length_delimited(6, &token_request);
    let mut csidriver_proto = encode_length_delimited(1, &obj_meta);
    csidriver_proto.extend_from_slice(&encode_length_delimited(2, &spec));
    let result = decode("CSIDriver", &csidriver_proto).unwrap();
    let token_requests = result["spec"]["tokenRequests"].as_array().unwrap();
    assert_eq!(token_requests.len(), 1);
    assert_eq!(token_requests[0]["audience"], "my-audience");
    assert_eq!(token_requests[0]["expirationSeconds"], 3600);
}

#[test]
fn decode_proto_by_kind_dispatches_csidriver() {
    let obj_meta = encode_length_delimited(1, b"driver.test.com");
    let csidriver_proto = encode_length_delimited(1, &obj_meta);
    let result = decode_versioned("CSIDriver", "", &csidriver_proto).unwrap();
    assert_eq!(result["kind"], "CSIDriver");
    assert_eq!(result["metadata"]["name"], "driver.test.com");
}

#[test]
fn decode_csistoragecapacity_proto_extracts_metadata_and_fields() {
    let mut obj_meta = encode_length_delimited(1, b"csisc-abc");
    obj_meta.extend_from_slice(&encode_length_delimited(3, b"kube-system"));
    let capacity_quantity = encode_length_delimited(1, b"100Gi");
    let mut csc_proto = encode_length_delimited(1, &obj_meta);
    csc_proto.extend_from_slice(&encode_length_delimited(3, b"fast-ssd"));
    csc_proto.extend_from_slice(&encode_length_delimited(4, &capacity_quantity));
    let result = decode("CSIStorageCapacity", &csc_proto).unwrap();
    assert_eq!(result["kind"], "CSIStorageCapacity");
    assert_eq!(result["apiVersion"], "storage.k8s.io/v1");
    assert_eq!(result["metadata"]["name"], "csisc-abc");
    assert_eq!(result["metadata"]["namespace"], "kube-system");
    assert_eq!(result["storageClassName"], "fast-ssd");
    assert_eq!(result["capacity"], "100Gi");
}

#[test]
fn decode_proto_by_kind_dispatches_csistoragecapacity() {
    let mut obj_meta = encode_length_delimited(1, b"csisc-xyz");
    obj_meta.extend_from_slice(&encode_length_delimited(3, b"default"));
    let mut csc_proto = encode_length_delimited(1, &obj_meta);
    csc_proto.extend_from_slice(&encode_length_delimited(3, b"my-class"));
    let result = decode_versioned("CSIStorageCapacity", "", &csc_proto).unwrap();
    assert_eq!(result["kind"], "CSIStorageCapacity");
    assert_eq!(result["storageClassName"], "my-class");
}

#[test]
fn decode_event_proto_extracts_all_fields() {
    let mut obj_meta = encode_length_delimited(1, b"pod.abc123");
    obj_meta.extend_from_slice(&encode_length_delimited(3, b"default"));
    let mut obj_ref = encode_length_delimited(1, b"Pod");
    obj_ref.extend_from_slice(&encode_length_delimited(2, b"default"));
    obj_ref.extend_from_slice(&encode_length_delimited(3, b"mypod"));
    obj_ref.extend_from_slice(&encode_length_delimited(4, b"uid-1"));
    obj_ref.extend_from_slice(&encode_length_delimited(5, b"v1"));
    let count_bytes: Vec<u8> = vec![0x40, 0x01];
    let mut event_proto = encode_length_delimited(1, &obj_meta);
    event_proto.extend_from_slice(&encode_length_delimited(2, &obj_ref));
    event_proto.extend_from_slice(&encode_length_delimited(3, b"Started"));
    event_proto.extend_from_slice(&encode_length_delimited(4, b"Started container myapp"));
    event_proto.extend_from_slice(&count_bytes);
    event_proto.extend_from_slice(&encode_length_delimited(9, b"Normal"));
    let result = decode("Event", &event_proto).unwrap();
    assert_eq!(result["kind"], "Event");
    assert_eq!(result["apiVersion"], "v1");
    assert_eq!(result["metadata"]["name"], "pod.abc123");
    assert_eq!(result["metadata"]["namespace"], "default");
    assert_eq!(result["involvedObject"]["kind"], "Pod");
    assert_eq!(result["involvedObject"]["namespace"], "default");
    assert_eq!(result["involvedObject"]["name"], "mypod");
    assert_eq!(result["involvedObject"]["uid"], "uid-1");
    assert_eq!(result["involvedObject"]["apiVersion"], "v1");
    assert_eq!(result["reason"], "Started");
    assert_eq!(result["message"], "Started container myapp");
    assert_eq!(result["count"], 1);
    assert_eq!(result["type"], "Normal");
}

#[test]
fn decode_event_proto_includes_series() {
    let obj_meta = encode_length_delimited(1, b"test.series");
    let mut event_series = vec![0x08, 0x64];
    let mut microtime_content = encode_varint(1 << 3);
    microtime_content.extend_from_slice(&encode_varint(1_704_067_200u64));
    event_series.extend_from_slice(&encode_length_delimited(2, &microtime_content));
    let mut event_proto = encode_length_delimited(1, &obj_meta);
    event_proto.extend_from_slice(&encode_length_delimited(11, &event_series));
    let result = decode("Event", &event_proto).unwrap();
    assert_eq!(result["series"]["count"], 100);
    assert_eq!(result["series"]["lastObservedTime"], "2024-01-01T00:00:00.000000Z");
}

#[test]
fn decode_core_proto_by_kind_dispatches_event() {
    let obj_meta = encode_length_delimited(1, b"myevent");
    let event_proto = encode_length_delimited(1, &obj_meta);
    let result = decode("Event", &event_proto).unwrap();
    assert_eq!(result["kind"], "Event");
    assert_eq!(result["metadata"]["name"], "myevent");
}

#[test]
fn decode_core_proto_by_kind_dispatches_clusterrole() {
    let obj_meta = encode_length_delimited(1, b"test-rbac-fix");
    let mut rule = encode_length_delimited(1, b"get");
    rule.extend_from_slice(&encode_length_delimited(1, b"list"));
    rule.extend_from_slice(&encode_length_delimited(2, b""));
    rule.extend_from_slice(&encode_length_delimited(3, b"pods"));
    let mut clusterrole_proto = encode_length_delimited(1, &obj_meta);
    clusterrole_proto.extend_from_slice(&encode_length_delimited(2, &rule));
    let result = decode("ClusterRole", &clusterrole_proto).unwrap();
    assert_eq!(result["kind"], "ClusterRole");
    assert_eq!(result["apiVersion"], "rbac.authorization.k8s.io/v1");
    assert_eq!(result["metadata"]["name"], "test-rbac-fix");
    assert!(result["metadata"]["creationTimestamp"].is_null());
    let rules = result["rules"].as_array().unwrap();
    assert_eq!(rules.len(), 1);
    let rule0 = &rules[0];
    let verbs = rule0["verbs"].as_array().unwrap();
    assert!(verbs.contains(&serde_json::Value::String("get".to_string())));
    assert!(verbs.contains(&serde_json::Value::String("list".to_string())));
    let resources = rule0["resources"].as_array().unwrap();
    assert_eq!(resources[0], "pods");
}

#[test]
fn decode_core_proto_by_kind_dispatches_clusterrolebinding() {
    let obj_meta = encode_length_delimited(1, b"test-crb");
    let mut subject = encode_length_delimited(1, b"ServiceAccount");
    subject.extend_from_slice(&encode_length_delimited(2, b""));
    subject.extend_from_slice(&encode_length_delimited(3, b"default"));
    subject.extend_from_slice(&encode_length_delimited(4, b"default"));
    let mut role_ref = encode_length_delimited(1, b"rbac.authorization.k8s.io");
    role_ref.extend_from_slice(&encode_length_delimited(2, b"ClusterRole"));
    role_ref.extend_from_slice(&encode_length_delimited(3, b"test-rbac-fix"));
    let mut crb_proto = encode_length_delimited(1, &obj_meta);
    crb_proto.extend_from_slice(&encode_length_delimited(2, &subject));
    crb_proto.extend_from_slice(&encode_length_delimited(3, &role_ref));
    let result = decode("ClusterRoleBinding", &crb_proto).unwrap();
    assert_eq!(result["kind"], "ClusterRoleBinding");
    assert_eq!(result["apiVersion"], "rbac.authorization.k8s.io/v1");
    assert_eq!(result["metadata"]["name"], "test-crb");
    let subjects = result["subjects"].as_array().unwrap();
    assert_eq!(subjects.len(), 1);
    assert_eq!(subjects[0]["kind"], "ServiceAccount");
    assert_eq!(subjects[0]["name"], "default");
    assert_eq!(subjects[0]["namespace"], "default");
    assert_eq!(result["roleRef"]["apiGroup"], "rbac.authorization.k8s.io");
    assert_eq!(result["roleRef"]["kind"], "ClusterRole");
    assert_eq!(result["roleRef"]["name"], "test-rbac-fix");
}

#[test]
fn decode_core_proto_by_kind_dispatches_role() {
    let mut obj_meta = encode_length_delimited(1, b"pod-reader");
    obj_meta.extend_from_slice(&encode_length_delimited(3, b"default"));
    let mut rule = encode_length_delimited(1, b"get");
    rule.extend_from_slice(&encode_length_delimited(2, b""));
    rule.extend_from_slice(&encode_length_delimited(3, b"pods"));
    let mut role_proto = encode_length_delimited(1, &obj_meta);
    role_proto.extend_from_slice(&encode_length_delimited(2, &rule));
    let result = decode("Role", &role_proto).unwrap();
    assert_eq!(result["kind"], "Role");
    assert_eq!(result["apiVersion"], "rbac.authorization.k8s.io/v1");
    assert_eq!(result["metadata"]["name"], "pod-reader");
    assert_eq!(result["metadata"]["namespace"], "default");
    let rules = result["rules"].as_array().unwrap();
    assert_eq!(rules.len(), 1);
    let verbs = rules[0]["verbs"].as_array().unwrap();
    assert!(verbs.contains(&serde_json::Value::String("get".to_string())));
    assert_eq!(rules[0]["resources"][0], "pods");
}

#[test]
fn decode_core_proto_by_kind_dispatches_rolebinding() {
    let mut obj_meta = encode_length_delimited(1, b"read-pods");
    obj_meta.extend_from_slice(&encode_length_delimited(3, b"default"));
    let mut subject = encode_length_delimited(1, b"User");
    subject.extend_from_slice(&encode_length_delimited(2, b"rbac.authorization.k8s.io"));
    subject.extend_from_slice(&encode_length_delimited(3, b"alice"));
    let mut role_ref = encode_length_delimited(1, b"rbac.authorization.k8s.io");
    role_ref.extend_from_slice(&encode_length_delimited(2, b"Role"));
    role_ref.extend_from_slice(&encode_length_delimited(3, b"pod-reader"));
    let mut rb_proto = encode_length_delimited(1, &obj_meta);
    rb_proto.extend_from_slice(&encode_length_delimited(2, &subject));
    rb_proto.extend_from_slice(&encode_length_delimited(3, &role_ref));
    let result = decode("RoleBinding", &rb_proto).unwrap();
    assert_eq!(result["kind"], "RoleBinding");
    assert_eq!(result["apiVersion"], "rbac.authorization.k8s.io/v1");
    assert_eq!(result["metadata"]["name"], "read-pods");
    assert_eq!(result["metadata"]["namespace"], "default");
    let subjects = result["subjects"].as_array().unwrap();
    assert_eq!(subjects.len(), 1);
    assert_eq!(subjects[0]["kind"], "User");
    assert_eq!(subjects[0]["name"], "alice");
    assert_eq!(subjects[0]["apiGroup"], "rbac.authorization.k8s.io");
    assert_eq!(result["roleRef"]["kind"], "Role");
    assert_eq!(result["roleRef"]["name"], "pod-reader");
}

#[test]
fn decode_subject_access_review_proto_extracts_all_fields() {
    let mut resource_attrs = encode_length_delimited(2, b"get");
    resource_attrs.extend_from_slice(&encode_length_delimited(5, b"pods"));
    let mut spec = encode_length_delimited(1, &resource_attrs);
    spec.extend_from_slice(&encode_length_delimited(3, b"system:admin"));
    spec.extend_from_slice(&encode_length_delimited(4, b"system:masters"));
    let sar_proto = encode_length_delimited(2, &spec);
    let result = decode("SubjectAccessReview", &sar_proto).unwrap();
    assert_eq!(result["apiVersion"], "authorization.k8s.io/v1");
    assert_eq!(result["kind"], "SubjectAccessReview");
    assert_eq!(result["spec"]["user"], "system:admin");
    assert_eq!(result["spec"]["groups"][0], "system:masters");
    assert_eq!(result["spec"]["resourceAttributes"]["verb"], "get");
    assert_eq!(result["spec"]["resourceAttributes"]["resource"], "pods");
}

#[test]
fn decode_core_proto_by_kind_dispatches_subject_access_review() {
    let mut resource_attrs = encode_length_delimited(2, b"get");
    resource_attrs.extend_from_slice(&encode_length_delimited(5, b"pods"));
    let mut spec = encode_length_delimited(1, &resource_attrs);
    spec.extend_from_slice(&encode_length_delimited(3, b"system:admin"));
    spec.extend_from_slice(&encode_length_delimited(4, b"system:masters"));
    let sar_proto = encode_length_delimited(2, &spec);
    let result = decode("SubjectAccessReview", &sar_proto).unwrap();
    assert_eq!(result["kind"], "SubjectAccessReview");
    assert_eq!(result["spec"]["resourceAttributes"]["verb"], "get");
    assert_eq!(result["spec"]["resourceAttributes"]["resource"], "pods");
    assert_eq!(result["spec"]["user"], "system:admin");
    assert_eq!(result["spec"]["groups"][0], "system:masters");
}

#[test]
fn full_sar_proto_envelope_dispatch() {
    let mut resource_attrs = encode_length_delimited(2, b"get");
    resource_attrs.extend_from_slice(&encode_length_delimited(5, b"pods"));
    let mut spec = encode_length_delimited(1, &resource_attrs);
    spec.extend_from_slice(&encode_length_delimited(3, b"system:admin"));
    spec.extend_from_slice(&encode_length_delimited(4, b"system:masters"));
    let sar_proto = encode_length_delimited(2, &spec);
    let type_meta: Vec<u8> = {
        let mut t = encode_length_delimited(1, b"authorization.k8s.io/v1");
        t.extend_from_slice(&encode_length_delimited(2, b"SubjectAccessReview"));
        t
    };
    let mut unknown = encode_length_delimited(1, &type_meta);
    unknown.extend_from_slice(&encode_length_delimited(2, &sar_proto));
    unknown.extend_from_slice(&encode_length_delimited(4,
        b"application/vnd.kubernetes.protobuf"));
    let mut body = K8S_PROTO_MAGIC.to_vec();
    body.extend_from_slice(&unknown);
    let env = decode_k8s_proto_envelope(&body).unwrap();
    assert_eq!(env.kind, "SubjectAccessReview");
    assert_eq!(env.content_type, "application/vnd.kubernetes.protobuf");
    let json = decode(&env.kind, &env.raw).unwrap();
    assert_eq!(json["kind"], "SubjectAccessReview");
    assert_eq!(json["spec"]["user"], "system:admin");
    assert_eq!(json["spec"]["groups"][0], "system:masters");
    assert_eq!(json["spec"]["resourceAttributes"]["verb"], "get");
    assert_eq!(json["spec"]["resourceAttributes"]["resource"], "pods");
}

#[test]
fn decode_token_review_proto_extracts_token() {
    let spec = encode_length_delimited(1, b"my-token");
    let tr_proto = encode_length_delimited(2, &spec);
    let result = decode("TokenReview", &tr_proto).unwrap();
    assert_eq!(result["apiVersion"], "authentication.k8s.io/v1");
    assert_eq!(result["kind"], "TokenReview");
    assert_eq!(result["spec"]["token"], "my-token");
}

#[test]
fn decode_core_proto_by_kind_dispatches_token_review() {
    let spec = encode_length_delimited(1, b"my-token");
    let tr_proto = encode_length_delimited(2, &spec);
    let result = decode("TokenReview", &tr_proto).unwrap();
    assert_eq!(result["kind"], "TokenReview");
    assert_eq!(result["spec"]["token"], "my-token");
}

#[test]
fn decode_core_proto_by_kind_dispatches_cronjob() {
    let mut obj_meta = encode_length_delimited(1, b"my-cron");
    obj_meta.extend_from_slice(&encode_length_delimited(3, b"default"));
    let job_spec = vec![0x38_u8, 0x03];
    let job_template_spec = encode_length_delimited(2, &job_spec);
    let mut cronjob_spec = encode_length_delimited(1, b"*/5 * * * *");
    cronjob_spec.extend_from_slice(&encode_length_delimited(3, b"Allow"));
    cronjob_spec.extend_from_slice(&encode_length_delimited(5, &job_template_spec));
    let mut cronjob_proto = encode_length_delimited(1, &obj_meta);
    cronjob_proto.extend_from_slice(&encode_length_delimited(2, &cronjob_spec));
    let result = decode("CronJob", &cronjob_proto).unwrap();
    assert_eq!(result["kind"], "CronJob");
    assert_eq!(result["apiVersion"], "batch/v1");
    assert_eq!(result["metadata"]["name"], "my-cron");
    assert_eq!(result["metadata"]["namespace"], "default");
    assert!(result["metadata"]["creationTimestamp"].is_null());
    assert_eq!(result["spec"]["schedule"], "*/5 * * * *");
    assert_eq!(result["spec"]["concurrencyPolicy"], "Allow");
    assert!(result["spec"]["jobTemplate"]["spec"]["template"].is_object());
    assert_eq!(result["spec"]["jobTemplate"]["spec"]["backoffLimit"], 3);
}

#[test]
fn decode_cronjob_proto_handles_kubectl_wire_format_with_template_at_field6() {
    let job_spec = message(&[encode_length_delimited(6, &[]), number(7, 3)]);
    let job_template = encode_length_delimited(2, &job_spec);
    let spec = message(&[text(1, "*/1 * * * *"), encode_length_delimited(5, &job_template)]);
    let buf = message(&[
        encode_length_delimited(1, &message(&[text(1, "my-cj"), text(3, "cronjobtest")])),
        encode_length_delimited(2, &spec),
    ]);
    assert!(buf.windows(1).any(|w| w[0] == 0x32));
    let result = decode("CronJob", &buf).unwrap();
    assert_eq!(result["kind"], "CronJob");
    assert_eq!(result["apiVersion"], "batch/v1");
    assert_eq!(result["metadata"]["name"], "my-cj");
    assert_eq!(result["spec"]["schedule"], "*/1 * * * *");
    assert_eq!(result["spec"]["jobTemplate"]["spec"]["backoffLimit"], 3);
    assert!(result["spec"]["jobTemplate"]["spec"]["template"].is_object());
}

#[test]
fn decode_cronjob_proto_returns_none_for_garbage() {
    assert!(decode("CronJob", &[0xff, 0xff, 0xff]).is_none());
}

#[test]
fn decode_core_proto_by_kind_dispatches_job() {
    let mut obj_meta = encode_length_delimited(1, b"test-job");
    obj_meta.extend_from_slice(&encode_length_delimited(3, b"default"));
    let job_spec = vec![0x10, 0x01, 0x38, 0x04];
    let mut job_proto = encode_length_delimited(1, &obj_meta);
    job_proto.extend_from_slice(&encode_length_delimited(2, &job_spec));
    let result = decode("Job", &job_proto).unwrap();
    assert_eq!(result["kind"], "Job");
    assert_eq!(result["apiVersion"], "batch/v1");
    assert_eq!(result["metadata"]["name"], "test-job");
    assert_eq!(result["metadata"]["namespace"], "default");
    assert!(result["metadata"]["creationTimestamp"].is_null());
    assert_eq!(result["spec"]["completions"], 1);
    assert_eq!(result["spec"]["backoffLimit"], 4);
    assert!(result["spec"]["template"].is_object());
}

#[test]
fn decode_job_proto_returns_none_for_garbage() {
    assert!(decode("Job", &[0xff, 0xff, 0xff]).is_none());
}

#[test]
fn decode_job_proto_handles_indexed_job_with_failure_policy() {
    let on_exit_codes = message(&[text(2, "In"), number(3, 42)]);
    let rule = message(&[text(1, "Ignore"), encode_length_delimited(2, &on_exit_codes)]);
    let policy = encode_length_delimited(1, &rule);
    let spec = message(&[
        number(1, 2),
        number(2, 5),
        number(7, 6),
        text(9, "Indexed"),
        encode_length_delimited(11, &policy),
        number(12, 1),
        number(13, 3),
    ]);
    let buf = message(&[
        encode_length_delimited(1, &message(&[text(1, "indexed-job"), text(3, "default")])),
        encode_length_delimited(2, &spec),
    ]);
    let result = decode("Job", &buf).unwrap();
    assert_eq!(result["kind"], "Job");
    assert_eq!(result["apiVersion"], "batch/v1");
    assert_eq!(result["metadata"]["name"], "indexed-job");
    assert_eq!(result["metadata"]["namespace"], "default");
    assert_eq!(result["spec"]["completionMode"], "Indexed");
    assert_eq!(result["spec"]["completions"], 5);
    assert_eq!(result["spec"]["parallelism"], 2);
    assert_eq!(result["spec"]["backoffLimitPerIndex"], 1);
    assert_eq!(result["spec"]["maxFailedIndexes"], 3);
    assert!(result["spec"]["template"].is_object());
    assert_eq!(result["spec"]["podFailurePolicy"]["rules"][0]["action"], "Ignore");
    assert_eq!(result["spec"]["podFailurePolicy"]["rules"][0]["onExitCodes"]["operator"], "In");
    assert_eq!(result["spec"]["podFailurePolicy"]["rules"][0]["onExitCodes"]["values"][0], 42);
}

#[test]
fn decode_job_proto_handles_job_with_success_policy() {
    let rule = message(&[text(1, "0-1"), number(2, 2)]);
    let policy = encode_length_delimited(1, &rule);
    let spec = message(&[
        number(2, 3),
        text(9, "Indexed"),
        encode_length_delimited(16, &policy),
    ]);
    let buf = message(&[
        encode_length_delimited(1, &message(&[text(1, "success-policy-job"), text(3, "test-ns")])),
        encode_length_delimited(2, &spec),
    ]);
    let result = decode("Job", &buf).unwrap();
    assert_eq!(result["kind"], "Job");
    assert_eq!(result["metadata"]["name"], "success-policy-job");
    assert_eq!(result["spec"]["completionMode"], "Indexed");
    assert_eq!(result["spec"]["completions"], 3);
    assert_eq!(result["spec"]["successPolicy"]["rules"][0]["succeededIndexes"], "0-1");
    assert_eq!(result["spec"]["successPolicy"]["rules"][0]["succeededCount"], 2);
}

#[test]
fn decode_job_proto_preserves_zero_valued_per_index_limits() {
    let spec = message(&[number(2, 4), text(9, "Indexed"), number(12, 0), number(13, 0)]);
    let buf = message(&[
        encode_length_delimited(1, &message(&[text(1, "zero-limits-job"), text(3, "default")])),
        encode_length_delimited(2, &spec),
    ]);
    let result = decode("Job", &buf).unwrap();
    assert_eq!(result["spec"]["backoffLimitPerIndex"], 0);
    assert_eq!(result["spec"]["maxFailedIndexes"], 0);
}

#[test]
fn decode_job_proto_preserves_template_containers() {
    let container = message(&[text(1, "pi"), text(2, "perl:5.34")]);
    let pod_spec = message(&[encode_length_delimited(2, &container), text(3, "Never")]);
    let template = encode_length_delimited(2, &pod_spec);
    let spec = message(&[number(2, 1), encode_length_delimited(6, &template), number(7, 4)]);
    let buf = message(&[
        encode_length_delimited(1, &message(&[text(1, "pi"), text(3, "default")])),
        encode_length_delimited(2, &spec),
    ]);
    let result = decode("Job", &buf).unwrap();
    assert_eq!(result["kind"], "Job");
    assert_eq!(result["metadata"]["name"], "pi");
    assert!(result["spec"]["template"]["spec"]["containers"].is_array());
    let containers = result["spec"]["template"]["spec"]["containers"].as_array().unwrap();
    assert_eq!(containers.len(), 1);
    assert_eq!(containers[0]["name"], "pi");
    assert_eq!(containers[0]["image"], "perl:5.34");
    assert_eq!(result["spec"]["template"]["spec"]["restartPolicy"], "Never");
}

#[test]
fn decode_job_proto_preserves_owner_references() {
    let cj_uid = "cj-uid-1234-5678-abcd";
    let owner = message(&[
        text(1, "CronJob"),
        text(3, "my-cj"),
        text(4, cj_uid),
        text(5, "batch/v1"),
        number(6, 1),
        number(7, 1),
    ]);
    let metadata = message(&[
        text(1, "my-cj-job"),
        text(3, "default"),
        text(5, "job-uid-abcd"),
        encode_length_delimited(13, &owner),
    ]);
    let buf = encode_length_delimited(1, &metadata);
    let result = decode("Job", &buf).unwrap();
    let refs = result["metadata"]["ownerReferences"].as_array().unwrap();
    assert_eq!(refs.len(), 1);
    assert_eq!(refs[0]["kind"], "CronJob");
    assert_eq!(refs[0]["uid"], cj_uid);
    assert_eq!(refs[0]["apiVersion"], "batch/v1");
    assert_eq!(refs[0]["name"], "my-cj");
    assert_eq!(refs[0]["controller"], true);
}

#[test]
fn decode_service_proto_extracts_metadata_and_spec() {
    let mut obj_meta = encode_length_delimited(1, b"my-svc");
    obj_meta.extend_from_slice(&encode_length_delimited(3, b"default"));
    let mut port = encode_length_delimited(1, b"http");
    port.extend_from_slice(&encode_length_delimited(2, b"TCP"));
    port.push(0x18);
    port.push(0x50);
    let mut svc_spec = encode_length_delimited(1, &port);
    svc_spec.extend_from_slice(&encode_length_delimited(3, b"10.96.0.1"));
    svc_spec.extend_from_slice(&encode_length_delimited(4, b"ClusterIP"));
    svc_spec.extend_from_slice(&encode_length_delimited(7, b"None"));
    let mut svc_proto = encode_length_delimited(1, &obj_meta);
    svc_proto.extend_from_slice(&encode_length_delimited(2, &svc_spec));
    let result = decode("Service", &svc_proto).unwrap();
    assert_eq!(result["kind"], "Service");
    assert_eq!(result["apiVersion"], "v1");
    assert_eq!(result["metadata"]["name"], "my-svc");
    assert_eq!(result["metadata"]["namespace"], "default");
    assert_eq!(result["spec"]["clusterIP"], "10.96.0.1");
    assert_eq!(result["spec"]["type"], "ClusterIP");
    assert_eq!(result["spec"]["sessionAffinity"], "None");
    let ports = result["spec"]["ports"].as_array().unwrap();
    assert_eq!(ports.len(), 1);
    assert_eq!(ports[0]["name"], "http");
    assert_eq!(ports[0]["protocol"], "TCP");
    assert_eq!(ports[0]["port"], 80);
}

#[test]
fn decode_service_proto_preserves_target_port() {
    let int_or_string_8444: Vec<u8> = vec![0x08, 0x00, 0x10, 0xFC, 0x41, 0x1a, 0x00];
    let mut port = encode_length_delimited(2, b"TCP");
    port.extend_from_slice(&encode_varint(3u64 << 3));
    port.extend_from_slice(&encode_varint(8443));
    port.extend_from_slice(&encode_length_delimited(4, &int_or_string_8444));
    let mut svc_spec = encode_length_delimited(1, &port);
    svc_spec.extend_from_slice(&encode_length_delimited(4, b"ClusterIP"));
    let mut obj_meta = encode_length_delimited(1, b"webhook-svc");
    obj_meta.extend_from_slice(&encode_length_delimited(3, b"test-ns"));
    let mut svc_proto = encode_length_delimited(1, &obj_meta);
    svc_proto.extend_from_slice(&encode_length_delimited(2, &svc_spec));
    let result = decode("Service", &svc_proto).unwrap();
    let ports = result["spec"]["ports"].as_array().unwrap();
    assert_eq!(ports[0]["port"], 8443);
    assert_eq!(ports[0]["targetPort"], 8444);
}

#[test]
fn decode_service_proto_handles_headless_service() {
    let mut obj_meta = encode_length_delimited(1, b"headless-svc");
    obj_meta.extend_from_slice(&encode_length_delimited(3, b"test-ns"));
    let mut svc_spec = encode_length_delimited(3, b"None");
    svc_spec.extend_from_slice(&encode_length_delimited(4, b"ClusterIP"));
    let mut svc_proto = encode_length_delimited(1, &obj_meta);
    svc_proto.extend_from_slice(&encode_length_delimited(2, &svc_spec));
    let result = decode("Service", &svc_proto).unwrap();
    assert_eq!(result["kind"], "Service");
    assert_eq!(result["spec"]["clusterIP"], "None");
}

#[test]
fn decode_secret_proto_extracts_metadata_type_and_data() {
    let mut obj_meta = encode_length_delimited(1, b"test-secret");
    obj_meta.extend_from_slice(&encode_length_delimited(3, b"default"));
    let mut data_entry = encode_length_delimited(1, b"key");
    data_entry.extend_from_slice(&encode_length_delimited(2, b"secret-value"));
    let mut secret_proto = encode_length_delimited(1, &obj_meta);
    secret_proto.extend_from_slice(&encode_length_delimited(2, &data_entry));
    secret_proto.extend_from_slice(&encode_length_delimited(3, b"Opaque"));
    let result = decode("Secret", &secret_proto).unwrap();
    assert_eq!(result["kind"], "Secret");
    assert_eq!(result["apiVersion"], "v1");
    assert_eq!(result["metadata"]["name"], "test-secret");
    assert_eq!(result["metadata"]["namespace"], "default");
    assert_eq!(result["type"], "Opaque");
    let expected_b64 = base64::engine::general_purpose::STANDARD.encode(b"secret-value");
    assert_eq!(result["data"]["key"], expected_b64);
}

#[test]
fn secret_type_at_wire_field_3_decodes_correctly() {
    let mut obj_meta = encode_length_delimited(1, b"sample-webhook-secret");
    obj_meta.extend_from_slice(&encode_length_delimited(3, b"default"));
    let mut secret_proto = encode_length_delimited(1, &obj_meta);
    secret_proto.extend_from_slice(&encode_length_delimited(3, b"Opaque"));
    let mut type_meta = encode_length_delimited(1, b"v1");
    type_meta.extend_from_slice(&encode_length_delimited(2, b"Secret"));
    let mut envelope = encode_length_delimited(1, &type_meta);
    envelope.extend_from_slice(&encode_length_delimited(2, &secret_proto));
    let mut body = K8S_PROTO_MAGIC.to_vec();
    body.extend_from_slice(&envelope);
    let env = decode_k8s_proto_envelope(&body).unwrap();
    assert_eq!(env.kind, "Secret");
    let result = decode(&env.kind, &env.raw).unwrap();
    assert_eq!(result["kind"], "Secret");
    assert_eq!(result["apiVersion"], "v1");
    assert_eq!(result["metadata"]["name"], "sample-webhook-secret");
    assert_eq!(result["metadata"]["namespace"], "default");
    assert_eq!(result["type"], "Opaque");
}

#[test]
fn decode_replicationcontroller_proto_extracts_metadata_and_spec() {
    let mut obj_meta = encode_length_delimited(1, b"my-rc");
    obj_meta.extend_from_slice(&encode_length_delimited(3, b"default"));
    let mut rc_spec = vec![0x08, 0x03];
    let mut sel_entry = encode_length_delimited(1, b"app");
    sel_entry.extend_from_slice(&encode_length_delimited(2, b"myapp"));
    rc_spec.extend_from_slice(&encode_length_delimited(2, &sel_entry));
    let mut rc_proto = encode_length_delimited(1, &obj_meta);
    rc_proto.extend_from_slice(&encode_length_delimited(2, &rc_spec));
    let result = decode("ReplicationController", &rc_proto).unwrap();
    assert_eq!(result["kind"], "ReplicationController");
    assert_eq!(result["apiVersion"], "v1");
    assert_eq!(result["metadata"]["name"], "my-rc");
    assert_eq!(result["metadata"]["namespace"], "default");
    assert_eq!(result["spec"]["replicas"], 3);
    assert_eq!(result["spec"]["selector"]["app"], "myapp");
}

#[test]
fn decode_runtimeclass_proto_extracts_metadata_and_handler() {
    let obj_meta = encode_length_delimited(1, b"myruntime");
    let handler = encode_length_delimited(2, b"myhandler");
    let mut rc_proto = encode_length_delimited(1, &obj_meta);
    rc_proto.extend_from_slice(&handler);
    let result = decode("RuntimeClass", &rc_proto).unwrap();
    assert_eq!(result["kind"], "RuntimeClass");
    assert_eq!(result["apiVersion"], "node.k8s.io/v1");
    assert_eq!(result["metadata"]["name"], "myruntime");
    assert_eq!(result["handler"], "myhandler");
}

#[test]
fn decode_runtimeclass_proto_includes_overhead_pod_fixed_so_pod_overhead_injection_works() {
    let encode_quantity = |s: &[u8]| -> Vec<u8> { encode_length_delimited(1, s) };
    let encode_map_entry = |key: &[u8], val_bytes: &[u8]| -> Vec<u8> {
        let mut entry = encode_length_delimited(1, key);
        entry.extend_from_slice(&encode_length_delimited(2, val_bytes));
        entry
    };
    let cpu_entry = encode_map_entry(b"cpu", &encode_quantity(b"10m"));
    let overhead_bytes = encode_length_delimited(1, &cpu_entry);
    let obj_meta = encode_length_delimited(1, b"test-rc");
    let handler = encode_length_delimited(2, b"test-rc");
    let mut rc_proto = encode_length_delimited(1, &obj_meta);
    rc_proto.extend_from_slice(&handler);
    rc_proto.extend_from_slice(&encode_length_delimited(3, &overhead_bytes));
    let result = decode("RuntimeClass", &rc_proto).unwrap();
    assert_eq!(result["overhead"]["podFixed"]["cpu"], "10m");
}

#[test]
fn decode_persistentvolume_proto_extracts_metadata_and_spec() {
    let obj_meta = encode_length_delimited(1, b"my-pv");
    let mut pv_spec = encode_length_delimited(3, b"ReadWriteOnce");
    pv_spec.extend_from_slice(&encode_length_delimited(5, b"Delete"));
    pv_spec.extend_from_slice(&encode_length_delimited(6, b"standard"));
    let mut pv_proto = encode_length_delimited(1, &obj_meta);
    pv_proto.extend_from_slice(&encode_length_delimited(2, &pv_spec));
    let result = decode("PersistentVolume", &pv_proto).unwrap();
    assert_eq!(result["kind"], "PersistentVolume");
    assert_eq!(result["apiVersion"], "v1");
    assert_eq!(result["metadata"]["name"], "my-pv");
    assert_eq!(result["spec"]["accessModes"][0], "ReadWriteOnce");
    assert_eq!(result["spec"]["persistentVolumeReclaimPolicy"], "Delete");
    assert_eq!(result["spec"]["storageClassName"], "standard");
}

#[test]
fn decode_volumeattachment_proto_extracts_metadata_and_spec() {
    let obj_meta = encode_length_delimited(1, b"csi-va-1");
    let source = encode_length_delimited(1, b"my-pv");
    let mut va_spec = encode_length_delimited(1, b"csi.example.com");
    va_spec.extend_from_slice(&encode_length_delimited(2, &source));
    va_spec.extend_from_slice(&encode_length_delimited(3, b"node-1"));
    let mut va_proto = encode_length_delimited(1, &obj_meta);
    va_proto.extend_from_slice(&encode_length_delimited(2, &va_spec));
    let result = decode("VolumeAttachment", &va_proto).unwrap();
    assert_eq!(result["kind"], "VolumeAttachment");
    assert_eq!(result["apiVersion"], "storage.k8s.io/v1");
    assert_eq!(result["metadata"]["name"], "csi-va-1");
    assert_eq!(result["spec"]["attacher"], "csi.example.com");
    assert_eq!(result["spec"]["nodeName"], "node-1");
    assert_eq!(result["spec"]["source"]["persistentVolumeName"], "my-pv");
}

#[test]
fn decode_statefulset_proto_extracts_metadata() {
    let name = encode_length_delimited(1, b"my-sts");
    let ns = encode_length_delimited(3, b"default");
    let mut meta = name;
    meta.extend_from_slice(&ns);
    let proto = encode_length_delimited(1, &meta);
    let result = decode("StatefulSet", &proto).unwrap();
    assert_eq!(result["kind"], "StatefulSet");
    assert_eq!(result["apiVersion"], "apps/v1");
    assert_eq!(result["metadata"]["name"], "my-sts");
    assert_eq!(result["metadata"]["namespace"], "default");
}

#[test]
fn decode_deployment_proto_extracts_metadata() {
    let name = encode_length_delimited(1, b"my-deploy");
    let ns = encode_length_delimited(3, b"default");
    let mut meta = name;
    meta.extend_from_slice(&ns);
    let proto = encode_length_delimited(1, &meta);
    let result = decode("Deployment", &proto).unwrap();
    assert_eq!(result["kind"], "Deployment");
    assert_eq!(result["apiVersion"], "apps/v1");
    assert_eq!(result["metadata"]["name"], "my-deploy");
}

#[test]
fn decode_daemonset_proto_extracts_metadata() {
    let name = encode_length_delimited(1, b"my-ds");
    let ns = encode_length_delimited(3, b"kube-system");
    let mut meta = name;
    meta.extend_from_slice(&ns);
    let proto = encode_length_delimited(1, &meta);
    let result = decode("DaemonSet", &proto).unwrap();
    assert_eq!(result["kind"], "DaemonSet");
    assert_eq!(result["apiVersion"], "apps/v1");
    assert_eq!(result["metadata"]["name"], "my-ds");
}

#[test]
fn decode_replicaset_proto_extracts_metadata() {
    let name = encode_length_delimited(1, b"my-rs");
    let ns = encode_length_delimited(3, b"default");
    let mut meta = name;
    meta.extend_from_slice(&ns);
    let proto = encode_length_delimited(1, &meta);
    let result = decode("ReplicaSet", &proto).unwrap();
    assert_eq!(result["kind"], "ReplicaSet");
    assert_eq!(result["apiVersion"], "apps/v1");
    assert_eq!(result["metadata"]["name"], "my-rs");
}

#[test]
fn decode_deployment_proto_includes_spec_template_labels() {
    let mut label_entry = encode_length_delimited(1, b"app");
    label_entry.extend_from_slice(&encode_length_delimited(2, b"test"));
    let selector_bytes = encode_length_delimited(1, &label_entry);
    let tmpl_meta_bytes = encode_length_delimited(11, &label_entry);
    let template_bytes = encode_length_delimited(1, &tmpl_meta_bytes);
    let mut spec_bytes = encode_length_delimited(2, &selector_bytes);
    spec_bytes.extend_from_slice(&encode_length_delimited(3, &template_bytes));
    let name_bytes = encode_length_delimited(1, b"my-deploy");
    let meta_bytes = name_bytes;
    let mut proto = encode_length_delimited(1, &meta_bytes);
    proto.extend_from_slice(&encode_length_delimited(2, &spec_bytes));
    let result = decode("Deployment", &proto).unwrap();
    assert_eq!(result["spec"]["template"]["metadata"]["labels"]["app"], "test");
    assert_eq!(result["spec"]["selector"]["matchLabels"]["app"], "test");
}

#[test]
fn decode_deployment_proto_includes_spec_template_spec_containers() {
    let mut container = encode_length_delimited(1, b"nginx");
    container.extend_from_slice(&encode_length_delimited(2, b"nginx:latest"));
    let pod_spec_bytes = encode_length_delimited(2, &container);
    let mut label_entry = encode_length_delimited(1, b"app");
    label_entry.extend_from_slice(&encode_length_delimited(2, b"nginx"));
    let tmpl_meta_bytes = encode_length_delimited(11, &label_entry);
    let mut template_bytes = encode_length_delimited(1, &tmpl_meta_bytes);
    template_bytes.extend_from_slice(&encode_length_delimited(2, &pod_spec_bytes));
    let selector_bytes = encode_length_delimited(1, &label_entry);
    let mut spec_bytes = encode_length_delimited(2, &selector_bytes);
    spec_bytes.extend_from_slice(&encode_length_delimited(3, &template_bytes));
    let name_bytes = encode_length_delimited(1, b"nginx-deploy");
    let mut proto = encode_length_delimited(1, &name_bytes);
    proto.extend_from_slice(&encode_length_delimited(2, &spec_bytes));
    let result = decode("Deployment", &proto).unwrap();
    assert!(result["spec"]["template"]["spec"].is_object());
    let containers = result["spec"]["template"]["spec"]["containers"].as_array().unwrap();
    assert_eq!(containers.len(), 1);
    assert_eq!(containers[0]["name"], "nginx");
    assert_eq!(containers[0]["image"], "nginx:latest");
}

#[test]
fn decode_statefulset_proto_includes_spec_template_labels() {
    let mut label_entry = encode_length_delimited(1, b"app");
    label_entry.extend_from_slice(&encode_length_delimited(2, b"myapp"));
    let selector_bytes = encode_length_delimited(1, &label_entry);
    let tmpl_meta_bytes = encode_length_delimited(11, &label_entry);
    let template_bytes = encode_length_delimited(1, &tmpl_meta_bytes);
    let mut spec_bytes = encode_length_delimited(2, &selector_bytes);
    spec_bytes.extend_from_slice(&encode_length_delimited(3, &template_bytes));
    let name_bytes = encode_length_delimited(1, b"my-sts");
    let mut proto = encode_length_delimited(1, &name_bytes);
    proto.extend_from_slice(&encode_length_delimited(2, &spec_bytes));
    let result = decode("StatefulSet", &proto).unwrap();
    assert_eq!(result["spec"]["template"]["metadata"]["labels"]["app"], "myapp");
}

#[test]
fn decode_replicaset_proto_includes_spec_template_labels() {
    let mut label_entry = encode_length_delimited(1, b"app");
    label_entry.extend_from_slice(&encode_length_delimited(2, b"myrs"));
    let selector_bytes = encode_length_delimited(1, &label_entry);
    let tmpl_meta_bytes = encode_length_delimited(11, &label_entry);
    let template_bytes = encode_length_delimited(1, &tmpl_meta_bytes);
    let mut spec_bytes = encode_length_delimited(2, &selector_bytes);
    spec_bytes.extend_from_slice(&encode_length_delimited(3, &template_bytes));
    let name_bytes = encode_length_delimited(1, b"my-rs");
    let mut proto = encode_length_delimited(1, &name_bytes);
    proto.extend_from_slice(&encode_length_delimited(2, &spec_bytes));
    let result = decode("ReplicaSet", &proto).unwrap();
    assert_eq!(result["spec"]["template"]["metadata"]["labels"]["app"], "myrs");
}

#[test]
fn decode_daemonset_proto_includes_spec_template_labels() {
    let mut label_entry = encode_length_delimited(1, b"app");
    label_entry.extend_from_slice(&encode_length_delimited(2, b"myds"));
    let selector_bytes = encode_length_delimited(1, &label_entry);
    let tmpl_meta_bytes = encode_length_delimited(11, &label_entry);
    let template_bytes = encode_length_delimited(1, &tmpl_meta_bytes);
    let mut spec_bytes = encode_length_delimited(1, &selector_bytes);
    spec_bytes.extend_from_slice(&encode_length_delimited(2, &template_bytes));
    let name_bytes = encode_length_delimited(1, b"my-ds");
    let mut proto = encode_length_delimited(1, &name_bytes);
    proto.extend_from_slice(&encode_length_delimited(2, &spec_bytes));
    let result = decode("DaemonSet", &proto).unwrap();
    assert_eq!(result["spec"]["template"]["metadata"]["labels"]["app"], "myds");
    assert_eq!(result["spec"]["selector"]["matchLabels"]["app"], "myds");
}

#[test]
fn decode_serviceaccount_proto_extracts_metadata() {
    let name = encode_length_delimited(1, b"my-sa");
    let ns = encode_length_delimited(3, b"default");
    let mut meta = name;
    meta.extend_from_slice(&ns);
    let proto = encode_length_delimited(1, &meta);
    let result = decode("ServiceAccount", &proto).unwrap();
    assert_eq!(result["kind"], "ServiceAccount");
    assert_eq!(result["apiVersion"], "v1");
    assert_eq!(result["metadata"]["name"], "my-sa");
    assert_eq!(result["metadata"]["namespace"], "default");
}

#[test]
fn decode_persistentvolumeclaim_proto_extracts_metadata() {
    let name = encode_length_delimited(1, b"my-pvc");
    let ns = encode_length_delimited(3, b"default");
    let mut meta = name;
    meta.extend_from_slice(&ns);
    let proto = encode_length_delimited(1, &meta);
    let result = decode("PersistentVolumeClaim", &proto).unwrap();
    assert_eq!(result["kind"], "PersistentVolumeClaim");
    assert_eq!(result["apiVersion"], "v1");
    assert_eq!(result["metadata"]["name"], "my-pvc");
    assert_eq!(result["metadata"]["namespace"], "default");
}

#[test]
fn decode_endpoints_proto_extracts_metadata() {
    let name = encode_length_delimited(1, b"my-ep");
    let ns = encode_length_delimited(3, b"default");
    let mut meta = name;
    meta.extend_from_slice(&ns);
    let proto = encode_length_delimited(1, &meta);
    let result = decode("Endpoints", &proto).unwrap();
    assert_eq!(result["kind"], "Endpoints");
    assert_eq!(result["apiVersion"], "v1");
    assert_eq!(result["metadata"]["name"], "my-ep");
    assert_eq!(result["metadata"]["namespace"], "default");
}

#[test]
fn decode_endpoints_proto_preserves_subsets() {
    let mut meta = encode_length_delimited(1, b"my-ep");
    meta.extend_from_slice(&encode_length_delimited(3, b"default"));
    let addr = encode_length_delimited(1, b"10.1.2.3");
    let mut ep_port = encode_length_delimited(1, b"http");
    ep_port.push(0x10);
    ep_port.push(80);
    ep_port.extend_from_slice(&encode_length_delimited(3, b"TCP"));
    let mut subset = encode_length_delimited(1, &addr);
    subset.extend_from_slice(&encode_length_delimited(3, &ep_port));
    let mut proto = encode_length_delimited(1, &meta);
    proto.extend_from_slice(&encode_length_delimited(2, &subset));
    let result = decode("Endpoints", &proto).unwrap();
    assert_eq!(result["kind"], "Endpoints");
    assert_eq!(result["metadata"]["name"], "my-ep");
    let subsets = result["subsets"].as_array().unwrap();
    assert_eq!(subsets.len(), 1);
    let addresses = subsets[0]["addresses"].as_array().unwrap();
    assert_eq!(addresses.len(), 1);
    assert_eq!(addresses[0]["ip"], "10.1.2.3");
    let ports = subsets[0]["ports"].as_array().unwrap();
    assert_eq!(ports.len(), 1);
    assert_eq!(ports[0]["port"], 80);
    assert_eq!(ports[0]["protocol"], "TCP");
    assert_eq!(ports[0]["name"], "http");
}

#[test]
fn decode_endpoints_proto_hostname_at_field_3_nodename_at_field_4() {
    let mut addr = encode_length_delimited(1, b"192.168.1.5");
    addr.extend_from_slice(&encode_length_delimited(2, b"\x0a\x03Pod"));
    addr.extend_from_slice(&encode_length_delimited(3, b"my-host"));
    addr.extend_from_slice(&encode_length_delimited(4, b"node-1"));
    let subset = encode_length_delimited(1, &addr);
    let meta = encode_length_delimited(1, b"ep");
    let mut proto = encode_length_delimited(1, &meta);
    proto.extend_from_slice(&encode_length_delimited(2, &subset));
    let result = decode("Endpoints", &proto).unwrap();
    let addresses = result["subsets"][0]["addresses"].as_array().unwrap();
    assert_eq!(addresses.len(), 1);
    assert_eq!(addresses[0]["ip"], "192.168.1.5");
    assert_eq!(addresses[0]["hostname"], "my-host");
    assert_eq!(addresses[0]["nodeName"], "node-1");
}

#[test]
fn decode_storageclass_proto_extracts_metadata() {
    let name = encode_length_delimited(1, b"fast-ssd");
    let proto = encode_length_delimited(1, &name);
    let result = decode("StorageClass", &proto).unwrap();
    assert_eq!(result["kind"], "StorageClass");
    assert_eq!(result["apiVersion"], "storage.k8s.io/v1");
    assert_eq!(result["metadata"]["name"], "fast-ssd");
}

#[test]
fn decode_volumeattributesclass_proto_extracts_metadata() {
    let name = encode_length_delimited(1, b"premium-rwo");
    let proto = encode_length_delimited(1, &name);
    let result = decode("VolumeAttributesClass", &proto).unwrap();
    assert_eq!(result["kind"], "VolumeAttributesClass");
    assert_eq!(result["apiVersion"], "storage.k8s.io/v1");
    assert_eq!(result["metadata"]["name"], "premium-rwo");
}

#[test]
fn decode_resourcequota_proto_extracts_metadata() {
    let mut meta_bytes = encode_length_delimited(1, b"compute-quota");
    meta_bytes.extend_from_slice(&encode_length_delimited(3, b"default"));
    let proto = encode_length_delimited(1, &meta_bytes);
    let result = decode("ResourceQuota", &proto).unwrap();
    assert_eq!(result["kind"], "ResourceQuota");
    assert_eq!(result["apiVersion"], "v1");
    assert_eq!(result["metadata"]["name"], "compute-quota");
    assert_eq!(result["metadata"]["namespace"], "default");
}

#[test]
fn decode_resourcequota_proto_extracts_spec_hard() {
    let encode_quantity = |s: &[u8]| -> Vec<u8> { encode_length_delimited(1, s) };
    let encode_map_entry = |key: &[u8], val_bytes: &[u8]| -> Vec<u8> {
        let mut entry = encode_length_delimited(1, key);
        entry.extend_from_slice(&encode_length_delimited(2, val_bytes));
        entry
    };
    let pods_entry = encode_map_entry(b"pods", &encode_quantity(b"10"));
    let spec_bytes = encode_length_delimited(1, &pods_entry);
    let mut meta_bytes = encode_length_delimited(1, b"compute-quota");
    meta_bytes.extend_from_slice(&encode_length_delimited(3, b"default"));
    let mut proto = encode_length_delimited(1, &meta_bytes);
    proto.extend_from_slice(&encode_length_delimited(2, &spec_bytes));
    let result = decode("ResourceQuota", &proto).unwrap();
    assert_eq!(result["kind"], "ResourceQuota");
    assert_eq!(result["metadata"]["name"], "compute-quota");
    assert_eq!(result["spec"]["hard"]["pods"], "10");
}

#[test]
fn decode_resourcequota_proto_extracts_spec_scopes() {
    let encode_quantity = |s: &[u8]| -> Vec<u8> { encode_length_delimited(1, s) };
    let encode_map_entry = |key: &[u8], val_bytes: &[u8]| -> Vec<u8> {
        let mut entry = encode_length_delimited(1, key);
        entry.extend_from_slice(&encode_length_delimited(2, val_bytes));
        entry
    };
    let pods_entry = encode_map_entry(b"pods", &encode_quantity(b"5"));
    let mut spec_bytes = encode_length_delimited(1, &pods_entry);
    spec_bytes.extend_from_slice(&encode_length_delimited(2, b"Terminating"));
    let mut meta_bytes = encode_length_delimited(1, b"terminating-quota");
    meta_bytes.extend_from_slice(&encode_length_delimited(3, b"default"));
    let mut proto = encode_length_delimited(1, &meta_bytes);
    proto.extend_from_slice(&encode_length_delimited(2, &spec_bytes));
    let result = decode("ResourceQuota", &proto).unwrap();
    assert_eq!(result["kind"], "ResourceQuota");
    assert_eq!(result["metadata"]["name"], "terminating-quota");
    assert_eq!(result["spec"]["hard"]["pods"], "5");
    assert_eq!(result["spec"]["scopes"], json(r#"["Terminating"]"#));
}

#[test]
fn decode_limitrange_proto_extracts_metadata() {
    let mut meta_bytes = encode_length_delimited(1, b"limits");
    meta_bytes.extend_from_slice(&encode_length_delimited(3, b"default"));
    let proto = encode_length_delimited(1, &meta_bytes);
    let result = decode("LimitRange", &proto).unwrap();
    assert_eq!(result["kind"], "LimitRange");
    assert_eq!(result["apiVersion"], "v1");
    assert_eq!(result["metadata"]["name"], "limits");
    assert_eq!(result["metadata"]["namespace"], "default");
}

#[test]
fn decode_poddisruptionbudget_proto_extracts_metadata() {
    let mut meta_bytes = encode_length_delimited(1, b"my-pdb");
    meta_bytes.extend_from_slice(&encode_length_delimited(3, b"default"));
    let proto = encode_length_delimited(1, &meta_bytes);
    let result = decode("PodDisruptionBudget", &proto).unwrap();
    assert_eq!(result["kind"], "PodDisruptionBudget");
    assert_eq!(result["apiVersion"], "policy/v1");
    assert_eq!(result["metadata"]["name"], "my-pdb");
    assert_eq!(result["metadata"]["namespace"], "default");
}

#[test]
fn decode_poddisruptionbudget_proto_preserves_status_disrupted_pods() {
    let time = message(&[number(1, 1_700_000_000), number(2, 0)]);
    let entry = message(&[text(1, "pod-0"), encode_length_delimited(2, &time)]);
    let status = message(&[
        number(1, 1),
        encode_length_delimited(2, &entry),
        number(3, 2),
        number(4, 3),
        number(5, 2),
        number(6, 3),
    ]);
    let buf = message(&[
        encode_length_delimited(1, &message(&[text(1, "status-pdb"), text(3, "default")])),
        encode_length_delimited(3, &status),
    ]);
    let result = decode("PodDisruptionBudget", &buf).unwrap();
    assert_eq!(result["kind"], "PodDisruptionBudget");
    assert_eq!(result["metadata"]["name"], "status-pdb");
    assert!(result["status"].is_object());
    let disrupted_pods = result["status"]["disruptedPods"].as_object().unwrap();
    assert!(disrupted_pods.contains_key("pod-0"));
    assert_eq!(result["status"]["disruptionsAllowed"], 2);
    assert_eq!(result["status"]["currentHealthy"], 3);
    assert_eq!(result["status"]["desiredHealthy"], 2);
    assert_eq!(result["status"]["expectedPods"], 3);
}

#[test]
fn decode_poddisruptionbudget_proto_preserves_spec_selector() {
    let mut label_entry = encode_length_delimited(1, b"foo");
    label_entry.extend_from_slice(&encode_length_delimited(2, b"bar"));
    let selector_bytes = encode_length_delimited(1, &label_entry);
    let int_or_string_bytes = vec![0x08, 0x00, 0x10, 0x01];
    let mut spec_bytes = encode_length_delimited(1, &int_or_string_bytes);
    spec_bytes.extend_from_slice(&encode_length_delimited(2, &selector_bytes));
    let meta_bytes = encode_length_delimited(1, b"foo");
    let mut pdb_bytes = encode_length_delimited(1, &meta_bytes);
    pdb_bytes.extend_from_slice(&encode_length_delimited(2, &spec_bytes));
    let result = decode("PodDisruptionBudget", &pdb_bytes).unwrap();
    assert_eq!(result["spec"]["selector"]["matchLabels"]["foo"], "bar");
    assert_eq!(result["spec"]["minAvailable"], 1);
}

#[test]
fn decode_limitrange_proto_extracts_spec_limits() {
    let encode_quantity = |s: &[u8]| -> Vec<u8> { encode_length_delimited(1, s) };
    let encode_map_entry = |key: &[u8], val_bytes: &[u8]| -> Vec<u8> {
        let mut entry = encode_length_delimited(1, key);
        entry.extend_from_slice(&encode_length_delimited(2, val_bytes));
        entry
    };
    let mut item_bytes = encode_length_delimited(1, b"Container");
    let cpu_default = encode_map_entry(b"cpu", &encode_quantity(b"500m"));
    item_bytes.extend_from_slice(&encode_length_delimited(4, &cpu_default));
    let cpu_req = encode_map_entry(b"cpu", &encode_quantity(b"100m"));
    item_bytes.extend_from_slice(&encode_length_delimited(5, &cpu_req));
    let spec_bytes = encode_length_delimited(1, &item_bytes);
    let mut meta_bytes = encode_length_delimited(1, b"limits");
    meta_bytes.extend_from_slice(&encode_length_delimited(3, b"default"));
    let mut proto = encode_length_delimited(1, &meta_bytes);
    proto.extend_from_slice(&encode_length_delimited(2, &spec_bytes));
    let result = decode("LimitRange", &proto).unwrap();
    assert_eq!(result["kind"], "LimitRange");
    assert_eq!(result["metadata"]["name"], "limits");
    assert_eq!(result["spec"]["limits"][0]["type"], "Container");
    assert_eq!(result["spec"]["limits"][0]["default"]["cpu"], "500m");
    assert_eq!(result["spec"]["limits"][0]["defaultRequest"]["cpu"], "100m");
}

#[test]
fn decode_crd_proto_extracts_metadata_and_spec() {
    let meta_name = encode_length_delimited(1, b"testcrds.example.io");
    let meta = encode_length_delimited(1, &meta_name);
    let names_plural = encode_length_delimited(1, b"testcrds");
    let names_singular = encode_length_delimited(2, b"testcrd");
    let names_kind = encode_length_delimited(4, b"TestCrd");
    let mut names_bytes = Vec::new();
    names_bytes.extend_from_slice(&names_plural);
    names_bytes.extend_from_slice(&names_singular);
    names_bytes.extend_from_slice(&names_kind);
    let ver_name = encode_length_delimited(1, b"v1");
    let ver_served = {
        let mut v = encode_varint(2 << 3);
        v.extend_from_slice(&encode_varint(1));
        v
    };
    let ver_storage = {
        let mut v = encode_varint(3 << 3);
        v.extend_from_slice(&encode_varint(1));
        v
    };
    let mut ver_bytes = Vec::new();
    ver_bytes.extend_from_slice(&ver_name);
    ver_bytes.extend_from_slice(&ver_served);
    ver_bytes.extend_from_slice(&ver_storage);
    let spec_group = encode_length_delimited(1, b"example.io");
    let spec_names = encode_length_delimited(3, &names_bytes);
    let spec_scope = encode_length_delimited(4, b"Namespaced");
    let spec_versions = encode_length_delimited(7, &ver_bytes);
    let mut spec_bytes = Vec::new();
    spec_bytes.extend_from_slice(&spec_group);
    spec_bytes.extend_from_slice(&spec_names);
    spec_bytes.extend_from_slice(&spec_scope);
    spec_bytes.extend_from_slice(&spec_versions);
    let spec = encode_length_delimited(2, &spec_bytes);
    let mut proto = Vec::new();
    proto.extend_from_slice(&meta);
    proto.extend_from_slice(&spec);
    let result = decode("CustomResourceDefinition", &proto).unwrap();
    assert_eq!(result["kind"], "CustomResourceDefinition");
    assert_eq!(result["apiVersion"], "apiextensions.k8s.io/v1");
    assert_eq!(result["metadata"]["name"], "testcrds.example.io");
    assert_eq!(result["spec"]["group"], "example.io");
    assert_eq!(result["spec"]["names"]["plural"], "testcrds");
    assert_eq!(result["spec"]["names"]["kind"], "TestCrd");
    assert_eq!(result["spec"]["scope"], "Namespaced");
    let versions = result["spec"]["versions"].as_array().unwrap();
    assert_eq!(versions.len(), 1);
    assert_eq!(versions[0]["name"], "v1");
    assert_eq!(versions[0]["served"], true);
    assert_eq!(versions[0]["storage"], true);
}

#[test]
fn decode_core_proto_by_kind_dispatches_flowschema() {
    let meta_bytes = encode_length_delimited(1, b"catch-all");
    let proto = encode_length_delimited(1, &meta_bytes);
    let result = decode("FlowSchema", &proto).unwrap();
    assert_eq!(result["kind"], "FlowSchema");
    assert_eq!(result["apiVersion"], "flowcontrol.apiserver.k8s.io/v1");
    assert_eq!(result["metadata"]["name"], "catch-all");
}

#[test]
fn decode_core_proto_by_kind_dispatches_prioritylevelconfiguration() {
    let meta_bytes = encode_length_delimited(1, b"workload-low");
    let proto = encode_length_delimited(1, &meta_bytes);
    let result = decode("PriorityLevelConfiguration", &proto).unwrap();
    assert_eq!(result["kind"], "PriorityLevelConfiguration");
    assert_eq!(result["apiVersion"], "flowcontrol.apiserver.k8s.io/v1");
    assert_eq!(result["metadata"]["name"], "workload-low");
}

#[test]
fn decode_core_proto_by_kind_dispatches_validating_webhook_configuration() {
    let meta_bytes = encode_length_delimited(1, b"e2e-test-webhook");
    let proto = encode_length_delimited(1, &meta_bytes);
    let result = decode("ValidatingWebhookConfiguration", &proto).unwrap();
    assert_eq!(result["kind"], "ValidatingWebhookConfiguration");
    assert_eq!(result["apiVersion"], "admissionregistration.k8s.io/v1");
    assert_eq!(result["metadata"]["name"], "e2e-test-webhook");
}

#[test]
fn decode_core_proto_by_kind_dispatches_mutating_webhook_configuration() {
    let meta_bytes = encode_length_delimited(1, b"e2e-test-mutating");
    let proto = encode_length_delimited(1, &meta_bytes);
    let result = decode("MutatingWebhookConfiguration", &proto).unwrap();
    assert_eq!(result["kind"], "MutatingWebhookConfiguration");
    assert_eq!(result["apiVersion"], "admissionregistration.k8s.io/v1");
    assert_eq!(result["metadata"]["name"], "e2e-test-mutating");
}

#[test]
fn decode_validatingwebhookconfiguration_proto_preserves_match_conditions() {
    let mut match_cond: Vec<u8> = Vec::new();
    match_cond.extend_from_slice(&encode_length_delimited(1, b"check-name"));
    match_cond.extend_from_slice(&encode_length_delimited(2,
        b"object.metadata.name == \"test\""));
    let mut webhook: Vec<u8> = Vec::new();
    webhook.extend_from_slice(&encode_length_delimited(1, b"test-webhook.k8s.io"));
    webhook.extend_from_slice(&encode_length_delimited(11, &match_cond));
    let meta_name = encode_length_delimited(1, b"test-vwc");
    let meta = encode_length_delimited(1, &meta_name);
    let mut proto = meta;
    proto.extend_from_slice(&encode_length_delimited(2, &webhook));
    let result = decode("ValidatingWebhookConfiguration", &proto).unwrap();
    let webhooks = result["webhooks"].as_array().unwrap();
    assert_eq!(webhooks.len(), 1);
    let conditions = webhooks[0]["matchConditions"].as_array().unwrap();
    assert_eq!(conditions.len(), 1);
    assert_eq!(conditions[0]["name"], "check-name");
    assert_eq!(conditions[0]["expression"], "object.metadata.name == \"test\"");
}

#[test]
fn decode_mutatingwebhookconfiguration_proto_preserves_match_conditions() {
    let mut match_cond: Vec<u8> = Vec::new();
    match_cond.extend_from_slice(&encode_length_delimited(1, b"check-env"));
    match_cond.extend_from_slice(&encode_length_delimited(2,
        b"request.namespace != \"kube-system\""));
    let mut webhook: Vec<u8> = Vec::new();
    webhook.extend_from_slice(&encode_length_delimited(1, b"mutating-webhook.k8s.io"));
    webhook.extend_from_slice(&encode_length_delimited(12, &match_cond));
    let meta_name = encode_length_delimited(1, b"test-mwc");
    let meta = encode_length_delimited(1, &meta_name);
    let mut proto = meta;
    proto.extend_from_slice(&encode_length_delimited(2, &webhook));
    let result = decode("MutatingWebhookConfiguration", &proto).unwrap();
    let webhooks = result["webhooks"].as_array().unwrap();
    assert_eq!(webhooks.len(), 1);
    let conditions = webhooks[0]["matchConditions"].as_array().unwrap();
    assert_eq!(conditions.len(), 1);
    assert_eq!(conditions[0]["name"], "check-env");
    assert_eq!(conditions[0]["expression"], "request.namespace != \"kube-system\"");
}

#[test]
fn container_field_tags_match_upstream_proto() {
    let obj_meta = encode_length_delimited(1, b"tag-test-pod");
    let term_msg_path = encode_length_delimited(13, b"/dev/termination-log");
    let image_pull_policy = encode_length_delimited(14, b"IfNotPresent");
    let term_msg_policy = encode_length_delimited(20, b"File");
    let mut container = encode_length_delimited(1, b"mycontainer");
    container.extend_from_slice(&term_msg_path);
    container.extend_from_slice(&image_pull_policy);
    container.extend_from_slice(&term_msg_policy);
    let podspec_containers = encode_length_delimited(2, &container);
    let pod_proto = {
        let mut p = encode_length_delimited(1, &obj_meta);
        p.extend_from_slice(&encode_length_delimited(2, &podspec_containers));
        p
    };
    let result = decode("Pod", &pod_proto).unwrap();
    let containers = result["spec"]["containers"].as_array().unwrap();
    assert_eq!(containers.len(), 1);
    assert_eq!(containers[0]["terminationMessagePath"], "/dev/termination-log");
    assert_eq!(containers[0]["imagePullPolicy"], "IfNotPresent");
    assert_eq!(containers[0]["terminationMessagePolicy"], "File");
}

#[test]
fn servicespec_field_tags_match_upstream_proto() {
    let obj_meta = encode_length_delimited(1, b"svc-tag-test");
    let mut svc_spec = encode_length_delimited(3, b"10.0.0.1");
    svc_spec.extend_from_slice(&encode_length_delimited(17, b"SingleStack"));
    svc_spec.extend_from_slice(&encode_length_delimited(22, b"Cluster"));
    let mut svc_proto = encode_length_delimited(1, &obj_meta);
    svc_proto.extend_from_slice(&encode_length_delimited(2, &svc_spec));
    let result = decode("Service", &svc_proto).unwrap();
    assert_eq!(result["spec"]["ipFamilyPolicy"], "SingleStack");
    assert_eq!(result["spec"]["internalTrafficPolicy"], "Cluster");
}

#[test]
fn persistent_volume_spec_field_tags_match_upstream_proto() {
    let obj_meta = encode_length_delimited(1, b"pv-tag-test");
    let mut pv_spec = encode_length_delimited(3, b"ReadWriteOnce");
    pv_spec.extend_from_slice(&encode_length_delimited(5, b"Retain"));
    pv_spec.extend_from_slice(&encode_length_delimited(6, b"standard"));
    pv_spec.extend_from_slice(&encode_length_delimited(8, b"Filesystem"));
    let mut pv_proto = encode_length_delimited(1, &obj_meta);
    pv_proto.extend_from_slice(&encode_length_delimited(2, &pv_spec));
    let result = decode("PersistentVolume", &pv_proto).unwrap();
    let access_modes = result["spec"]["accessModes"].as_array().unwrap();
    assert!(access_modes.contains(&serde_json::Value::String("ReadWriteOnce".to_string())));
    assert_eq!(result["spec"]["persistentVolumeReclaimPolicy"], "Retain");
    assert_eq!(result["spec"]["storageClassName"], "standard");
    assert_eq!(result["spec"]["volumeMode"], "Filesystem");
}

#[test]
fn decode_pod_proto_preserves_volume_mounts() {
    let mut volume_mount = encode_length_delimited(1, b"cert");
    volume_mount.extend_from_slice(&encode_length_delimited(3, b"/certs"));
    let mut container = encode_length_delimited(1, b"webhook");
    container.extend_from_slice(&encode_length_delimited(2, b"webhook:v1"));
    container.extend_from_slice(&encode_length_delimited(9, &volume_mount));
    let obj_meta = encode_length_delimited(1, b"webhook");
    let podspec_containers = encode_length_delimited(2, &container);
    let mut pod_proto = encode_length_delimited(1, &obj_meta);
    pod_proto.extend_from_slice(&encode_length_delimited(2, &podspec_containers));
    let result = decode("Pod", &pod_proto).unwrap();
    let mounts = result["spec"]["containers"][0]["volumeMounts"].as_array().unwrap();
    assert_eq!(mounts.len(), 1);
    assert_eq!(mounts[0]["name"], "cert");
    assert_eq!(mounts[0]["mountPath"], "/certs");
}

#[test]
fn decode_deployment_proto_volume_mount_read_only_does_not_fail_decode() {
    let mut volume_mount = encode_length_delimited(1, b"certs");
    volume_mount.extend_from_slice(&encode_varint(16));
    volume_mount.extend_from_slice(&encode_varint(1));
    volume_mount.extend_from_slice(&encode_length_delimited(3, b"/certs"));
    let mut container = encode_length_delimited(1, b"webhook");
    container.extend_from_slice(&encode_length_delimited(2,
        b"registry.k8s.io/e2e-test-images/agnhost:2.63.0"));
    container.extend_from_slice(&encode_length_delimited(9, &volume_mount));
    let podspec = encode_length_delimited(2, &container);
    let meta_name_bytes = encode_length_delimited(1, b"webhook-pod");
    let tmpl_meta = encode_length_delimited(1, &meta_name_bytes);
    let mut tmpl = tmpl_meta;
    tmpl.extend_from_slice(&encode_length_delimited(2, &podspec));
    let mut label_entry = encode_length_delimited(1, b"app");
    label_entry.extend_from_slice(&encode_length_delimited(2, b"webhook"));
    let selector_bytes = encode_length_delimited(1, &label_entry);
    let mut dep_spec = encode_length_delimited(2, &selector_bytes);
    dep_spec.extend_from_slice(&encode_length_delimited(3, &tmpl));
    let meta_name = encode_length_delimited(1, b"webhook");
    let mut deployment_proto = encode_length_delimited(1, &meta_name);
    deployment_proto.extend_from_slice(&encode_length_delimited(2, &dep_spec));
    let result = decode("Deployment", &deployment_proto);
    assert!(result.is_some());
    let val = result.unwrap();
    assert_eq!(val["kind"], "Deployment");
    let containers = &val["spec"]["template"]["spec"]["containers"];
    assert!(containers.is_array());
    let mounts = &containers[0]["volumeMounts"];
    assert!(mounts.is_array() && mounts.as_array().unwrap().len() == 1);
    assert_eq!(mounts[0]["readOnly"], true);
    assert_eq!(mounts[0]["mountPath"], "/certs");
}

#[test]
fn spec_volumes_secret_survives_proto_decode() {
    let secret_vol_src = encode_length_delimited(1, b"my-secret");
    let volume_source = encode_length_delimited(6, &secret_vol_src);
    let mut volume = encode_length_delimited(1, b"webhook-certs");
    volume.extend_from_slice(&encode_length_delimited(2, &volume_source));
    let container = encode_length_delimited(1, b"app");
    let mut podspec = encode_length_delimited(1, &volume);
    podspec.extend_from_slice(&encode_length_delimited(2, &container));
    let obj_meta = encode_length_delimited(1, b"test-pod");
    let mut pod_proto = encode_length_delimited(1, &obj_meta);
    pod_proto.extend_from_slice(&encode_length_delimited(2, &podspec));
    let result = decode("Pod", &pod_proto).unwrap();
    let volumes = result["spec"]["volumes"].as_array().unwrap();
    assert_eq!(volumes.len(), 1);
    assert_eq!(volumes[0]["name"], "webhook-certs");
    assert_eq!(volumes[0]["secret"]["secretName"], "my-secret");
}

#[test]
fn decode_pod_proto_preserves_secret_volume_default_mode() {
    let mut secret_vol_src = encode_length_delimited(1, b"my-secret");
    secret_vol_src.push(0x18);
    secret_vol_src.extend_from_slice(&encode_varint(256));
    let volume_source = encode_length_delimited(6, &secret_vol_src);
    let mut volume = encode_length_delimited(1, b"sec-vol");
    volume.extend_from_slice(&encode_length_delimited(2, &volume_source));
    let container = encode_length_delimited(1, b"app");
    let mut podspec = encode_length_delimited(1, &volume);
    podspec.extend_from_slice(&encode_length_delimited(2, &container));
    let obj_meta = encode_length_delimited(1, b"test-pod");
    let mut pod_proto = encode_length_delimited(1, &obj_meta);
    pod_proto.extend_from_slice(&encode_length_delimited(2, &podspec));
    let result = decode("Pod", &pod_proto).unwrap();
    let volumes = result["spec"]["volumes"].as_array().unwrap();
    assert_eq!(volumes[0]["secret"]["defaultMode"], 256);
}

#[test]
fn decode_pod_proto_preserves_configmap_volume_default_mode() {
    let local_ref = encode_length_delimited(1, b"my-cm");
    let mut cm_vol_src = encode_length_delimited(1, &local_ref);
    cm_vol_src.push(0x18);
    cm_vol_src.extend_from_slice(&encode_varint(256));
    let volume_source = encode_length_delimited(19, &cm_vol_src);
    let mut volume = encode_length_delimited(1, b"cm-vol");
    volume.extend_from_slice(&encode_length_delimited(2, &volume_source));
    let container = encode_length_delimited(1, b"app");
    let mut podspec = encode_length_delimited(1, &volume);
    podspec.extend_from_slice(&encode_length_delimited(2, &container));
    let obj_meta = encode_length_delimited(1, b"test-pod");
    let mut pod_proto = encode_length_delimited(1, &obj_meta);
    pod_proto.extend_from_slice(&encode_length_delimited(2, &podspec));
    let result = decode("Pod", &pod_proto).unwrap();
    let volumes = result["spec"]["volumes"].as_array().unwrap();
    assert_eq!(volumes[0]["configMap"]["defaultMode"], 256);
}

#[test]
fn spec_volumes_empty_dir_survives_proto_decode() {
    let empty_dir_src: Vec<u8> = vec![];
    let volume_source = encode_length_delimited(2, &empty_dir_src);
    let mut volume = encode_length_delimited(1, b"scratch");
    volume.extend_from_slice(&encode_length_delimited(2, &volume_source));
    let container = encode_length_delimited(1, b"app");
    let mut podspec = encode_length_delimited(1, &volume);
    podspec.extend_from_slice(&encode_length_delimited(2, &container));
    let obj_meta = encode_length_delimited(1, b"test-pod");
    let mut pod_proto = encode_length_delimited(1, &obj_meta);
    pod_proto.extend_from_slice(&encode_length_delimited(2, &podspec));
    let result = decode("Pod", &pod_proto).unwrap();
    let volumes = result["spec"]["volumes"].as_array().unwrap();
    assert_eq!(volumes.len(), 1);
    assert_eq!(volumes[0]["name"], "scratch");
    assert!(volumes[0]["emptyDir"].is_object());
}

#[test]
fn spec_volumes_empty_dir_with_memory_medium_survives_proto_decode() {
    let empty_dir_src = encode_length_delimited(1, b"Memory");
    let volume_source = encode_length_delimited(2, &empty_dir_src);
    let mut volume = encode_length_delimited(1, b"mem");
    volume.extend_from_slice(&encode_length_delimited(2, &volume_source));
    let container = encode_length_delimited(1, b"app");
    let mut podspec = encode_length_delimited(1, &volume);
    podspec.extend_from_slice(&encode_length_delimited(2, &container));
    let obj_meta = encode_length_delimited(1, b"test-pod");
    let mut pod_proto = encode_length_delimited(1, &obj_meta);
    pod_proto.extend_from_slice(&encode_length_delimited(2, &podspec));
    let result = decode("Pod", &pod_proto).unwrap();
    let volumes = result["spec"]["volumes"].as_array().unwrap();
    assert_eq!(volumes[0]["emptyDir"]["medium"], "Memory");
}

#[test]
fn spec_volumes_downward_api_survives_proto_decode() {
    let mut field_selector = encode_length_delimited(1, b"v1");
    field_selector.extend_from_slice(&encode_length_delimited(2, b"metadata.name"));
    let mut dav_file = encode_length_delimited(1, b"podname");
    dav_file.extend_from_slice(&encode_length_delimited(2, &field_selector));
    let da_src = encode_length_delimited(1, &dav_file);
    let volume_source = encode_length_delimited(16, &da_src);
    let mut volume = encode_length_delimited(1, b"podinfo");
    volume.extend_from_slice(&encode_length_delimited(2, &volume_source));
    let container = encode_length_delimited(1, b"app");
    let mut podspec = encode_length_delimited(1, &volume);
    podspec.extend_from_slice(&encode_length_delimited(2, &container));
    let obj_meta = encode_length_delimited(1, b"test-pod");
    let mut pod_proto = encode_length_delimited(1, &obj_meta);
    pod_proto.extend_from_slice(&encode_length_delimited(2, &podspec));
    let result = decode("Pod", &pod_proto).unwrap();
    let volumes = result["spec"]["volumes"].as_array().unwrap();
    assert_eq!(volumes.len(), 1);
    assert_eq!(volumes[0]["name"], "podinfo");
    assert!(volumes[0]["downwardAPI"].is_object());
    let items = volumes[0]["downwardAPI"]["items"].as_array().unwrap();
    assert_eq!(items.len(), 1);
    assert_eq!(items[0]["path"], "podname");
    assert_eq!(items[0]["fieldRef"]["fieldPath"], "metadata.name");
}

#[test]
fn spec_volumes_downward_api_resource_field_ref_decoded_with_divisor() {
    let divisor_quantity = encode_length_delimited(1, b"1m");
    let mut resource_field_selector = encode_length_delimited(1, b"test-container");
    resource_field_selector.extend_from_slice(&encode_length_delimited(2, b"requests.cpu"));
    resource_field_selector.extend_from_slice(&encode_length_delimited(3, &divisor_quantity));
    let mut dav_file = encode_length_delimited(1, b"cpu_request");
    dav_file.extend_from_slice(&encode_length_delimited(3, &resource_field_selector));
    let da_src = encode_length_delimited(1, &dav_file);
    let volume_source = encode_length_delimited(16, &da_src);
    let mut volume = encode_length_delimited(1, b"podinfo");
    volume.extend_from_slice(&encode_length_delimited(2, &volume_source));
    let container = encode_length_delimited(1, b"test-container");
    let mut podspec = encode_length_delimited(1, &volume);
    podspec.extend_from_slice(&encode_length_delimited(2, &container));
    let obj_meta = encode_length_delimited(1, b"test-pod");
    let mut pod_proto = encode_length_delimited(1, &obj_meta);
    pod_proto.extend_from_slice(&encode_length_delimited(2, &podspec));
    let result = decode("Pod", &pod_proto).unwrap();
    let items = result["spec"]["volumes"][0]["downwardAPI"]["items"].as_array().unwrap();
    assert_eq!(items.len(), 1);
    let item = &items[0];
    assert_eq!(item["path"], "cpu_request");
    assert!(item["fieldRef"].is_null() || item.get("fieldRef").is_none());
    assert!(item["resourceFieldRef"].is_object());
    assert_eq!(item["resourceFieldRef"]["containerName"], "test-container");
    assert_eq!(item["resourceFieldRef"]["resource"], "requests.cpu");
    assert_eq!(item["resourceFieldRef"]["divisor"], "1m");
}

#[test]
fn spec_volumes_downward_api_resource_field_ref_defaults_divisor_to_one() {
    let mut resource_field_selector = encode_length_delimited(1, b"c");
    resource_field_selector.extend_from_slice(&encode_length_delimited(2, b"limits.memory"));
    let mut dav_file = encode_length_delimited(1, b"mem_limit");
    dav_file.extend_from_slice(&encode_length_delimited(3, &resource_field_selector));
    let da_src = encode_length_delimited(1, &dav_file);
    let volume_source = encode_length_delimited(16, &da_src);
    let mut volume = encode_length_delimited(1, b"vol");
    volume.extend_from_slice(&encode_length_delimited(2, &volume_source));
    let container = encode_length_delimited(1, b"c");
    let mut podspec = encode_length_delimited(1, &volume);
    podspec.extend_from_slice(&encode_length_delimited(2, &container));
    let obj_meta = encode_length_delimited(1, b"test-pod");
    let mut pod_proto = encode_length_delimited(1, &obj_meta);
    pod_proto.extend_from_slice(&encode_length_delimited(2, &podspec));
    let result = decode("Pod", &pod_proto).unwrap();
    let item = &result["spec"]["volumes"][0]["downwardAPI"]["items"][0];
    assert_eq!(item["resourceFieldRef"]["divisor"], "1");
}

#[test]
fn spec_volumes_downward_api_resource_field_ref_zero_divisor_defaults_to_one() {
    let zero_quantity = encode_length_delimited(1, b"0");
    let mut resource_field_selector = encode_length_delimited(1, b"c");
    resource_field_selector.extend_from_slice(&encode_length_delimited(2, b"limits.cpu"));
    resource_field_selector.extend_from_slice(&encode_length_delimited(3, &zero_quantity));
    let mut dav_file = encode_length_delimited(1, b"cpu_limit");
    dav_file.extend_from_slice(&encode_length_delimited(3, &resource_field_selector));
    let da_src = encode_length_delimited(1, &dav_file);
    let volume_source = encode_length_delimited(16, &da_src);
    let mut volume = encode_length_delimited(1, b"vol");
    volume.extend_from_slice(&encode_length_delimited(2, &volume_source));
    let container = encode_length_delimited(1, b"c");
    let mut podspec = encode_length_delimited(1, &volume);
    podspec.extend_from_slice(&encode_length_delimited(2, &container));
    let obj_meta = encode_length_delimited(1, b"test-pod");
    let mut pod_proto = encode_length_delimited(1, &obj_meta);
    pod_proto.extend_from_slice(&encode_length_delimited(2, &podspec));
    let result = decode("Pod", &pod_proto).unwrap();
    let item = &result["spec"]["volumes"][0]["downwardAPI"]["items"][0];
    assert_eq!(item["resourceFieldRef"]["divisor"], "1");
}

#[test]
fn spec_volumes_downward_api_default_mode_defaults_to_420_when_absent() {
    let mut field_ref = encode_length_delimited(1, b"v1");
    field_ref.extend_from_slice(&encode_length_delimited(2, b"metadata.name"));
    let mut dav_file = encode_length_delimited(1, b"podname");
    dav_file.extend_from_slice(&encode_length_delimited(2, &field_ref));
    let da_src = encode_length_delimited(1, &dav_file);
    let volume_source = encode_length_delimited(16, &da_src);
    let mut volume = encode_length_delimited(1, b"vol");
    volume.extend_from_slice(&encode_length_delimited(2, &volume_source));
    let container = encode_length_delimited(1, b"c");
    let mut podspec = encode_length_delimited(1, &volume);
    podspec.extend_from_slice(&encode_length_delimited(2, &container));
    let obj_meta = encode_length_delimited(1, b"test-pod");
    let mut pod_proto = encode_length_delimited(1, &obj_meta);
    pod_proto.extend_from_slice(&encode_length_delimited(2, &podspec));
    let result = decode("Pod", &pod_proto).unwrap();
    let downward_api = &result["spec"]["volumes"][0]["downwardAPI"];
    assert!(downward_api["defaultMode"].is_number());
    assert_eq!(downward_api["defaultMode"], 420);
}

#[test]
fn spec_volumes_projected_with_service_account_token_survives_proto_decode() {
    let mut sat = encode_length_delimited(1, b"api");
    let field_tag: u64 = 2 << 3;
    sat.extend_from_slice(&encode_varint(field_tag));
    sat.extend_from_slice(&encode_varint(3600));
    sat.extend_from_slice(&encode_length_delimited(3, b"token"));
    let proj_entry = encode_length_delimited(4, &sat);
    let proj_src = encode_length_delimited(1, &proj_entry);
    let volume_source = encode_length_delimited(26, &proj_src);
    let mut volume = encode_length_delimited(1, b"kube-api-access");
    volume.extend_from_slice(&encode_length_delimited(2, &volume_source));
    let container = encode_length_delimited(1, b"app");
    let mut podspec = encode_length_delimited(1, &volume);
    podspec.extend_from_slice(&encode_length_delimited(2, &container));
    let obj_meta = encode_length_delimited(1, b"test-pod");
    let mut pod_proto = encode_length_delimited(1, &obj_meta);
    pod_proto.extend_from_slice(&encode_length_delimited(2, &podspec));
    let result = decode("Pod", &pod_proto).unwrap();
    let volumes = result["spec"]["volumes"].as_array().unwrap();
    assert_eq!(volumes.len(), 1);
    assert_eq!(volumes[0]["name"], "kube-api-access");
    assert!(volumes[0]["projected"].is_object());
    let sources = volumes[0]["projected"]["sources"].as_array().unwrap();
    assert_eq!(sources.len(), 1);
    assert_eq!(sources[0]["serviceAccountToken"]["path"], "token");
    assert_eq!(sources[0]["serviceAccountToken"]["expirationSeconds"], 3600);
}

#[test]
fn decode_pod_proto_preserves_container_env_vars() {
    let mut plain_env = encode_length_delimited(1, b"POD_NAME");
    plain_env.extend_from_slice(&encode_length_delimited(2, b"my-pod"));
    let mut field_selector = encode_length_delimited(1, b"v1");
    field_selector.extend_from_slice(&encode_length_delimited(2, b"metadata.name"));
    let env_var_source = encode_length_delimited(1, &field_selector);
    let mut downward_env = encode_length_delimited(1, b"MY_FIELD");
    downward_env.extend_from_slice(&encode_length_delimited(3, &env_var_source));
    let mut container = encode_length_delimited(1, b"app");
    container.extend_from_slice(&encode_length_delimited(2, b"app:v1"));
    container.extend_from_slice(&encode_length_delimited(7, &plain_env));
    container.extend_from_slice(&encode_length_delimited(7, &downward_env));
    let podspec = encode_length_delimited(2, &container);
    let obj_meta = encode_length_delimited(1, b"my-pod");
    let mut pod_proto = encode_length_delimited(1, &obj_meta);
    pod_proto.extend_from_slice(&encode_length_delimited(2, &podspec));
    let result = decode("Pod", &pod_proto).unwrap();
    let env = result["spec"]["containers"][0]["env"].as_array().unwrap();
    assert_eq!(env.len(), 2);
    assert_eq!(env[0]["name"], "POD_NAME");
    assert_eq!(env[0]["value"], "my-pod");
    assert_eq!(env[1]["name"], "MY_FIELD");
    assert!(env[1].get("value").is_none() || env[1]["value"] == "");
    assert_eq!(env[1]["valueFrom"]["fieldRef"]["apiVersion"], "v1");
    assert_eq!(env[1]["valueFrom"]["fieldRef"]["fieldPath"], "metadata.name");
}

#[test]
fn decode_pod_proto_preserves_configmap_key_ref_env_var() {
    let local_obj_ref = encode_length_delimited(1, b"test-cm");
    let mut cm_key_sel = encode_length_delimited(1, &local_obj_ref);
    cm_key_sel.extend_from_slice(&encode_length_delimited(2, b"data-1"));
    let env_var_source = encode_length_delimited(3, &cm_key_sel);
    let mut env_var = encode_length_delimited(1, b"DATA_1");
    env_var.extend_from_slice(&encode_length_delimited(3, &env_var_source));
    let mut container = encode_length_delimited(1, b"app");
    container.extend_from_slice(&encode_length_delimited(2, b"busybox"));
    container.extend_from_slice(&encode_length_delimited(7, &env_var));
    let podspec = encode_length_delimited(2, &container);
    let obj_meta = encode_length_delimited(1, b"my-pod");
    let mut pod_proto = encode_length_delimited(1, &obj_meta);
    pod_proto.extend_from_slice(&encode_length_delimited(2, &podspec));
    let result = decode("Pod", &pod_proto).unwrap();
    let env = result["spec"]["containers"][0]["env"].as_array().unwrap();
    assert_eq!(env.len(), 1);
    assert_eq!(env[0]["name"], "DATA_1");
    assert!(env[0].get("value").is_none() || env[0]["value"] == "");
    assert_eq!(env[0]["valueFrom"]["configMapKeyRef"]["name"], "test-cm");
    assert_eq!(env[0]["valueFrom"]["configMapKeyRef"]["key"], "data-1");
}

#[test]
fn decode_pod_proto_preserves_env_from_configmap_ref() {
    let local_obj_ref = encode_length_delimited(1, b"test-cm");
    let cm_env_source = encode_length_delimited(1, &local_obj_ref);
    let mut env_from_source = encode_length_delimited(1, b"CM_");
    env_from_source.extend_from_slice(&encode_length_delimited(2, &cm_env_source));
    let mut container = encode_length_delimited(1, b"app");
    container.extend_from_slice(&encode_length_delimited(2, b"busybox"));
    container.extend_from_slice(&encode_length_delimited(19, &env_from_source));
    let podspec = encode_length_delimited(2, &container);
    let obj_meta = encode_length_delimited(1, b"my-pod");
    let mut pod_proto = encode_length_delimited(1, &obj_meta);
    pod_proto.extend_from_slice(&encode_length_delimited(2, &podspec));
    let result = decode("Pod", &pod_proto).unwrap();
    let env_from = result["spec"]["containers"][0]["envFrom"].as_array().unwrap();
    assert_eq!(env_from.len(), 1);
    assert_eq!(env_from[0]["prefix"], "CM_");
    assert_eq!(env_from[0]["configMapRef"]["name"], "test-cm");
    assert!(env_from[0]["configMapRef"]["optional"].is_null());
}

#[test]
fn decode_core_proto_by_kind_dispatches_ingressclass() {
    let obj_meta = encode_length_delimited(1, b"nginx");
    let ic_spec = encode_length_delimited(1, b"k8s.io/ingress-nginx");
    let mut ic_proto = encode_length_delimited(1, &obj_meta);
    ic_proto.extend_from_slice(&encode_length_delimited(2, &ic_spec));
    let result = decode("IngressClass", &ic_proto).unwrap();
    assert_eq!(result["kind"], "IngressClass");
    assert_eq!(result["apiVersion"], "networking.k8s.io/v1");
    assert_eq!(result["metadata"]["name"], "nginx");
    assert_eq!(result["spec"]["controller"], "k8s.io/ingress-nginx");
}

#[test]
fn decode_ingressclass_proto_returns_none_for_garbage() {
    assert!(decode("IngressClass", &[ 0xff, 0xff, 0xff ]).is_none());
}

#[test]
fn decode_proto_by_kind_and_version_dispatches_ingress() {
    let obj_meta = encode_length_delimited(1, b"test-ingress");
    let rule = encode_length_delimited(1, b"example.com");
    let mut spec_proto = encode_length_delimited(4, b"nginx");
    spec_proto.extend_from_slice(&encode_length_delimited(3, &rule));
    let mut ingress_proto = encode_length_delimited(1, &obj_meta);
    ingress_proto.extend_from_slice(&encode_length_delimited(2, &spec_proto));
    let result = decode_versioned("Ingress", "networking.k8s.io/v1", &ingress_proto).unwrap();
    assert_eq!(result["kind"], "Ingress");
    assert_eq!(result["apiVersion"], "networking.k8s.io/v1");
    assert_eq!(result["metadata"]["name"], "test-ingress");
    assert_eq!(result["spec"]["ingressClassName"], "nginx");
    assert_eq!(result["spec"]["rules"][0]["host"], "example.com");
}

#[test]
fn decode_ingress_proto_extracts_default_backend() {
    let mut port_proto: Vec<u8> = Vec::new();
    port_proto.push(0x10);
    port_proto.extend_from_slice(&encode_varint(80));
    let mut svc_backend = encode_length_delimited(1, b"my-service");
    svc_backend.extend_from_slice(&encode_length_delimited(2, &port_proto));
    let backend = encode_length_delimited(4, &svc_backend);
    let spec = encode_length_delimited(1, &backend);
    let obj_meta = encode_length_delimited(1, b"backend-ingress");
    let mut ingress_proto = encode_length_delimited(1, &obj_meta);
    ingress_proto.extend_from_slice(&encode_length_delimited(2, &spec));
    let result = decode("Ingress", &ingress_proto).unwrap();
    assert_eq!(result["spec"]["defaultBackend"]["service"]["name"], "my-service");
    assert_eq!(result["spec"]["defaultBackend"]["service"]["port"]["number"], 80);
}

#[test]
fn decode_proto_by_kind_and_version_dispatches_ipaddress() {
    let obj_meta = encode_length_delimited(1, b"192.168.1.5");
    let mut parent_ref = encode_length_delimited(2, b"services");
    parent_ref.extend_from_slice(&encode_length_delimited(4, b"my-svc"));
    let spec = encode_length_delimited(1, &parent_ref);
    let mut ip_proto = encode_length_delimited(1, &obj_meta);
    ip_proto.extend_from_slice(&encode_length_delimited(2, &spec));
    let result = decode_versioned("IPAddress", "networking.k8s.io/v1", &ip_proto).unwrap();
    assert_eq!(result["kind"], "IPAddress");
    assert_eq!(result["metadata"]["name"], "192.168.1.5");
    assert_eq!(result["spec"]["parentRef"]["resource"], "services");
}

#[test]
fn decode_proto_by_kind_and_version_dispatches_servicecidr() {
    let obj_meta = encode_length_delimited(1, b"my-cidr");
    let spec = encode_length_delimited(1, b"10.0.0.0/24");
    let mut cidr_proto = encode_length_delimited(1, &obj_meta);
    cidr_proto.extend_from_slice(&encode_length_delimited(2, &spec));
    let result = decode_versioned("ServiceCIDR", "networking.k8s.io/v1", &cidr_proto).unwrap();
    assert_eq!(result["kind"], "ServiceCIDR");
    assert_eq!(result["metadata"]["name"], "my-cidr");
    assert_eq!(result["spec"]["cidrs"][0], "10.0.0.0/24");
}

#[test]
fn decode_proto_by_kind_and_version_dispatches_endpointslice() {
    let obj_meta = encode_length_delimited(1, b"test-slice");
    let ep_addr = encode_length_delimited(1, b"10.0.0.1");
    let endpoint = encode_length_delimited(2, &ep_addr);
    let mut port_proto = encode_length_delimited(1, b"http");
    port_proto.extend_from_slice(&encode_length_delimited(2, b"TCP"));
    port_proto.push(0x18);
    port_proto.extend_from_slice(&encode_varint(8080));
    let mut eps_proto = encode_length_delimited(1, &obj_meta);
    eps_proto.extend_from_slice(&endpoint);
    eps_proto.extend_from_slice(&encode_length_delimited(3, &port_proto));
    eps_proto.extend_from_slice(&encode_length_delimited(4, b"IPv4"));
    let result = decode_versioned("EndpointSlice", "discovery.k8s.io/v1", &eps_proto).unwrap();
    assert_eq!(result["kind"], "EndpointSlice");
    assert_eq!(result["apiVersion"], "discovery.k8s.io/v1");
    assert_eq!(result["addressType"], "IPv4");
    assert_eq!(result["endpoints"][0]["addresses"][0], "10.0.0.1");
    assert_eq!(result["ports"][0]["name"], "http");
    assert_eq!(result["ports"][0]["port"], 8080);
}

#[test]
fn decode_endpointslice_proto_conformance_test_scenario() {
    let obj_meta = encode_length_delimited(2, b"e2e-");
    let conditions_proto = vec![0x08u8, 0x01];
    let conditions = encode_length_delimited(2, &conditions_proto);
    let mut endpoint_content = encode_length_delimited(1, b"10.0.0.1");
    endpoint_content.extend_from_slice(&conditions);
    let mut port_content = encode_length_delimited(2, b"TCP");
    port_content.push(0x18);
    port_content.push(0x50);
    let mut eps_proto = encode_length_delimited(1, &obj_meta);
    eps_proto.extend_from_slice(&encode_length_delimited(2, &endpoint_content));
    eps_proto.extend_from_slice(&encode_length_delimited(3, &port_content));
    eps_proto.extend_from_slice(&encode_length_delimited(4, b"IPv4"));
    let result = decode("EndpointSlice", &eps_proto).unwrap();
    assert_eq!(result["kind"], "EndpointSlice");
    assert_eq!(result["apiVersion"], "discovery.k8s.io/v1");
    assert_eq!(result["addressType"], "IPv4");
    assert!(result["metadata"]["generateName"].as_str() == Some("e2e-"));
    assert_eq!(result["endpoints"][0]["addresses"][0], "10.0.0.1");
    assert_eq!(result["endpoints"][0]["conditions"]["ready"], true);
    assert_eq!(result["ports"][0]["port"], 80);
    assert_eq!(result["ports"][0]["protocol"], "TCP");
}

#[test]
fn decode_proto_by_kind_and_version_dispatches_events_v1_event() {
    let obj_meta = encode_length_delimited(1, b"test-event");
    let mut ev_proto = encode_length_delimited(1, &obj_meta);
    ev_proto.extend_from_slice(&encode_length_delimited(4, b"test-controller"));
    ev_proto.extend_from_slice(&encode_length_delimited(6, b"Started"));
    ev_proto.extend_from_slice(&encode_length_delimited(7, b"TestReason"));
    ev_proto.extend_from_slice(&encode_length_delimited(11, b"Normal"));
    let result = decode_versioned("Event", "events.k8s.io/v1", &ev_proto).unwrap();
    assert_eq!(result["apiVersion"], "events.k8s.io/v1");
    assert_eq!(result["kind"], "Event");
    assert_eq!(result["reportingController"], "test-controller");
    assert_eq!(result["action"], "Started");
    assert_eq!(result["reason"], "TestReason");
    assert_eq!(result["type"], "Normal");
}

#[test]
fn decode_proto_by_kind_and_version_routes_event_without_apiversion_to_core_v1() {
    let obj_meta = encode_length_delimited(1, b"core-event");
    let mut ev_proto = encode_length_delimited(1, &obj_meta);
    ev_proto.extend_from_slice(&encode_length_delimited(3, b"SomeReason"));
    ev_proto.extend_from_slice(&encode_length_delimited(4, b"something happened"));
    ev_proto.extend_from_slice(&encode_length_delimited(9, b"Warning"));
    let result = decode_versioned("Event", "", &ev_proto).unwrap();
    assert_eq!(result["apiVersion"], "v1");
    assert_eq!(result["reason"], "SomeReason");
}

#[test]
fn decode_proto_by_kind_and_version_dispatches_csr() {
    let obj_meta = encode_length_delimited(1, b"test-csr");
    let fake_csr_bytes = b"-----BEGIN CERTIFICATE REQUEST-----\nfake\n-----END CERTIFICATE REQUEST-----";
    let mut spec_proto = encode_length_delimited(1, fake_csr_bytes);
    spec_proto.extend_from_slice(&encode_length_delimited(7,
        b"kubernetes.io/kube-apiserver-client"));
    spec_proto.extend_from_slice(&encode_length_delimited(5, b"client auth"));
    let mut csr_proto = encode_length_delimited(1, &obj_meta);
    csr_proto.extend_from_slice(&encode_length_delimited(2, &spec_proto));
    let result = decode_versioned("CertificateSigningRequest",
        "certificates.k8s.io/v1",
        &csr_proto).unwrap();
    assert_eq!(result["kind"], "CertificateSigningRequest");
    assert_eq!(result["apiVersion"], "certificates.k8s.io/v1");
    assert_eq!(result["metadata"]["name"], "test-csr");
    assert_eq!(result["spec"]["signerName"], "kubernetes.io/kube-apiserver-client");
    assert_eq!(result["spec"]["usages"][0], "client auth");
    let request_b64 = result["spec"]["request"].as_str().unwrap();
    let decoded = base64::engine::general_purpose::STANDARD.decode(request_b64).unwrap();
    assert_eq!(decoded, fake_csr_bytes);
}

#[test]
fn decode_endpointslice_hints_for_zones_previously_dropped_now_preserved() {
    let for_zone = encode_length_delimited(1, b"us-east-1a");
    let hints = encode_length_delimited(1, &for_zone);
    let mut ep = encode_length_delimited(1, b"10.0.0.5");
    ep.extend_from_slice(&encode_length_delimited(8, &hints));
    let meta = encode_length_delimited(1, b"my-slice");
    let mut eps = encode_length_delimited(1, &meta);
    eps.extend_from_slice(&encode_length_delimited(2, &ep));
    eps.extend_from_slice(&encode_length_delimited(4, b"IPv4"));
    let result = decode("EndpointSlice", &eps).unwrap();
    assert_eq!(result["endpoints"][0]["hints"]["forZones"][0]["name"], "us-east-1a");
}

#[test]
fn decode_pdb_unhealthy_pod_eviction_policy_previously_dropped_now_preserved() {
    let spec = encode_length_delimited(4, b"AlwaysAllow");
    let meta = encode_length_delimited(1, b"my-pdb");
    let mut pdb = encode_length_delimited(1, &meta);
    pdb.extend_from_slice(&encode_length_delimited(2, &spec));
    let result = decode("PodDisruptionBudget", &pdb).unwrap();
    assert_eq!(result["spec"]["unhealthyPodEvictionPolicy"], "AlwaysAllow");
}

#[test]
fn decode_ingress_ingress_class_name_correct_field_number_now_preserved() {
    let spec = encode_length_delimited(4, b"nginx");
    let meta = encode_length_delimited(1, b"my-ingress");
    let mut ingress = encode_length_delimited(1, &meta);
    ingress.extend_from_slice(&encode_length_delimited(2, &spec));
    let result = decode("Ingress", &ingress).unwrap();
    assert_eq!(result["spec"]["ingressClassName"], "nginx");
}

#[test]
fn decode_csr_expiration_seconds_previously_dropped_now_preserved() {
    let mut spec = encode_length_delimited(1, b"fakecertrequest");
    spec.extend_from_slice(&encode_length_delimited(7,
        b"kubernetes.io/kube-apiserver-client"));
    spec.push(0x40);
    spec.extend_from_slice(&encode_varint(3600));
    let meta = encode_length_delimited(1, b"my-csr");
    let mut csr = encode_length_delimited(1, &meta);
    csr.extend_from_slice(&encode_length_delimited(2, &spec));
    let result = decode("CertificateSigningRequest", &csr).unwrap();
    assert_eq!(result["spec"]["expirationSeconds"], 3600);
}

#[test]
fn decode_csr_status_conditions_previously_dropped_now_preserved() {
    let mut cond = encode_length_delimited(1, b"Approved");
    cond.extend_from_slice(&encode_length_delimited(6, b"True"));
    cond.extend_from_slice(&encode_length_delimited(2, b"KubectlApprove"));
    let mut status = encode_length_delimited(1, &cond);
    status.extend_from_slice(&encode_length_delimited(2, b"fake-cert-bytes"));
    let meta = encode_length_delimited(1, b"my-csr");
    let mut csr = encode_length_delimited(1, &meta);
    csr.extend_from_slice(&encode_length_delimited(3, &status));
    let result = decode("CertificateSigningRequest", &csr).unwrap();
    assert_eq!(result["status"]["conditions"][0]["type"], "Approved");
    assert_eq!(result["status"]["conditions"][0]["status"], "True");
    assert_eq!(result["status"]["conditions"][0]["reason"], "KubectlApprove");
    let cert_b64 = result["status"]["certificate"].as_str().unwrap();
    let decoded = base64::engine::general_purpose::STANDARD.decode(cert_b64).unwrap();
    assert_eq!(decoded, b"fake-cert-bytes");
}

#[test]
fn decode_events_v1_event_series_previously_dropped_now_preserved() {
    let mut micro_time = Vec::new();
    micro_time.push(0x08);
    micro_time.extend_from_slice(&encode_varint(1_700_000_000u64));
    micro_time.push(0x10);
    micro_time.extend_from_slice(&encode_varint(0u64));
    let mut series = Vec::new();
    series.push(0x08);
    series.extend_from_slice(&encode_varint(5u64));
    series.extend_from_slice(&encode_length_delimited(2, &micro_time));
    let meta = encode_length_delimited(1, b"test-event-series");
    let mut ev = encode_length_delimited(1, &meta);
    ev.extend_from_slice(&encode_length_delimited(3, &series));
    let result = decode_versioned("Event", "events.k8s.io/v1", &ev).unwrap();
    assert_eq!(result["series"]["count"], 5);
    assert!(result["series"]["lastObservedTime"].as_str().is_some());
}

#[test]
fn decode_core_proto_by_kind_dispatches_priorityclass() {
    let obj_meta = encode_length_delimited(1, b"high-priority");
    let mut pc_proto = encode_length_delimited(1, &obj_meta);
    pc_proto.push(0x10);
    pc_proto.extend_from_slice(&encode_varint(1_000_000));
    pc_proto.extend_from_slice(&encode_length_delimited(4, b"high priority class"));
    pc_proto.extend_from_slice(&encode_length_delimited(5, b"PreemptLowerPriority"));
    let result = decode("PriorityClass", &pc_proto).unwrap();
    assert_eq!(result["kind"], "PriorityClass");
    assert_eq!(result["apiVersion"], "scheduling.k8s.io/v1");
    assert_eq!(result["metadata"]["name"], "high-priority");
    assert_eq!(result["value"], 1_000_000);
    assert_eq!(result["preemptionPolicy"], "PreemptLowerPriority");
    assert_eq!(result["description"], "high priority class");
}

#[test]
fn decode_priorityclass_proto_returns_none_for_garbage() {
    assert!(decode("PriorityClass", &[ 0xff, 0xff, 0xff ]).is_none());
}

#[test]
fn decode_core_proto_by_kind_dispatches_mutatingadmissionpolicy() {
    let obj_meta = encode_length_delimited(1, b"test-map");
    let proto = encode_length_delimited(1, &obj_meta);
    let result = decode("MutatingAdmissionPolicy", &proto).unwrap();
    assert_eq!(result["kind"], "MutatingAdmissionPolicy");
    assert_eq!(result["apiVersion"], "admissionregistration.k8s.io/v1");
    assert_eq!(result["metadata"]["name"], "test-map");
}

#[test]
fn decode_mutatingadmissionpolicy_proto_returns_none_for_garbage() {
    assert!(decode("MutatingAdmissionPolicy", &[ 0xff, 0xff, 0xff ]).is_none());
}

#[test]
fn decode_mutatingadmissionpolicy_proto_preserves_spec_on_put() {
    let apply_config = encode_length_delimited(1,
        b"Object{metadata: Object.metadata{labels: {\"injected\": \"true\"}}}");
    let mut mutation: Vec<u8> = Vec::new();
    mutation.extend_from_slice(&encode_length_delimited(2, b"ApplyConfiguration"));
    mutation.extend_from_slice(&encode_length_delimited(3, &apply_config));
    let mut rule: Vec<u8> = Vec::new();
    rule.extend_from_slice(&encode_length_delimited(1, b"apps"));
    rule.extend_from_slice(&encode_length_delimited(2, b"v1"));
    rule.extend_from_slice(&encode_length_delimited(3, b"deployments"));
    let mut rwo: Vec<u8> = Vec::new();
    rwo.extend_from_slice(&encode_length_delimited(1, b"CREATE"));
    rwo.extend_from_slice(&encode_length_delimited(2, &rule));
    let named_rule = encode_length_delimited(2, &rwo);
    let match_constraints = encode_length_delimited(3, &named_rule);
    let mut spec: Vec<u8> = Vec::new();
    spec.extend_from_slice(&encode_length_delimited(2, &match_constraints));
    spec.extend_from_slice(&encode_length_delimited(4, &mutation));
    spec.extend_from_slice(&encode_length_delimited(5, b"Fail"));
    let obj_meta = encode_length_delimited(1, b"test-map-spec");
    let mut proto = encode_length_delimited(1, &obj_meta);
    proto.extend_from_slice(&encode_length_delimited(2, &spec));
    let result = decode("MutatingAdmissionPolicy", &proto).unwrap();
    assert_eq!(result["metadata"]["name"], "test-map-spec");
    assert_eq!(result["spec"]["failurePolicy"], "Fail");
    let mutations = result["spec"]["mutations"].as_array().unwrap();
    assert_eq!(mutations.len(), 1);
    assert_eq!(mutations[0]["patchType"], "ApplyConfiguration");
    assert!(!mutations[0]["applyConfiguration"]["expression"].as_str().unwrap_or("").is_empty());
    let resource_rules = result["spec"]["matchConstraints"]["resourceRules"].as_array().unwrap();
    assert!(!resource_rules.is_empty());
    assert_eq!(resource_rules[0]["apiGroups"][0], "apps");
    assert_eq!(resource_rules[0]["resources"][0], "deployments");
}

#[test]
fn decode_mutatingadmissionpolicybinding_proto_preserves_spec_on_put() {
    let spec = encode_length_delimited(1, b"my-policy");
    let obj_meta = encode_length_delimited(1, b"test-mapb-spec");
    let mut proto = encode_length_delimited(1, &obj_meta);
    proto.extend_from_slice(&encode_length_delimited(2, &spec));
    let result = decode("MutatingAdmissionPolicyBinding", &proto).unwrap();
    assert_eq!(result["metadata"]["name"], "test-mapb-spec");
    assert_eq!(result["spec"]["policyName"], "my-policy");
}

#[test]
fn decode_core_proto_by_kind_dispatches_mutatingadmissionpolicybinding() {
    let obj_meta = encode_length_delimited(1, b"test-mapb");
    let proto = encode_length_delimited(1, &obj_meta);
    let result = decode("MutatingAdmissionPolicyBinding", &proto).unwrap();
    assert_eq!(result["kind"], "MutatingAdmissionPolicyBinding");
    assert_eq!(result["apiVersion"], "admissionregistration.k8s.io/v1");
    assert_eq!(result["metadata"]["name"], "test-mapb");
}

#[test]
fn decode_mutatingadmissionpolicybinding_proto_returns_none_for_garbage() {
    assert!(decode("MutatingAdmissionPolicyBinding", &[ 0xff, 0xff, 0xff ]).is_none());
}

#[test]
fn decode_core_proto_by_kind_dispatches_validatingadmissionpolicy() {
    let obj_meta = encode_length_delimited(1, b"test-vap");
    let proto = encode_length_delimited(1, &obj_meta);
    let result = decode("ValidatingAdmissionPolicy", &proto).unwrap();
    assert_eq!(result["kind"], "ValidatingAdmissionPolicy");
    assert_eq!(result["apiVersion"], "admissionregistration.k8s.io/v1");
    assert_eq!(result["metadata"]["name"], "test-vap");
}

#[test]
fn decode_validatingadmissionpolicy_proto_preserves_spec_on_put() {
    let mut validation: Vec<u8> = Vec::new();
    validation.extend_from_slice(&encode_length_delimited(1, b"object.spec.replicas <= 5"));
    validation.extend_from_slice(&encode_length_delimited(2, b"replicas must be <= 5"));
    let mut rule: Vec<u8> = Vec::new();
    rule.extend_from_slice(&encode_length_delimited(1, b"apps"));
    rule.extend_from_slice(&encode_length_delimited(2, b"v1"));
    rule.extend_from_slice(&encode_length_delimited(3, b"deployments"));
    let mut rwo: Vec<u8> = Vec::new();
    rwo.extend_from_slice(&encode_length_delimited(1, b"CREATE"));
    rwo.extend_from_slice(&encode_length_delimited(2, &rule));
    let named_rule = encode_length_delimited(2, &rwo);
    let match_constraints = encode_length_delimited(3, &named_rule);
    let mut spec: Vec<u8> = Vec::new();
    spec.extend_from_slice(&encode_length_delimited(2, &match_constraints));
    spec.extend_from_slice(&encode_length_delimited(3, &validation));
    spec.extend_from_slice(&encode_length_delimited(4, b"Fail"));
    let obj_meta = encode_length_delimited(1, b"test-vap-spec");
    let mut proto = encode_length_delimited(1, &obj_meta);
    proto.extend_from_slice(&encode_length_delimited(2, &spec));
    let result = decode("ValidatingAdmissionPolicy", &proto).unwrap();
    assert_eq!(result["metadata"]["name"], "test-vap-spec");
    assert_eq!(result["spec"]["failurePolicy"], "Fail");
    let validations = result["spec"]["validations"].as_array().unwrap();
    assert_eq!(validations.len(), 1);
    assert_eq!(validations[0]["expression"], "object.spec.replicas <= 5");
    assert_eq!(validations[0]["message"], "replicas must be <= 5");
    let resource_rules = result["spec"]["matchConstraints"]["resourceRules"].as_array().unwrap();
    assert!(!resource_rules.is_empty());
    assert_eq!(resource_rules[0]["apiGroups"][0], "apps");
    assert_eq!(resource_rules[0]["resources"][0], "deployments");
}

#[test]
fn decode_validatingadmissionpolicy_proto_returns_none_for_garbage() {
    assert!(decode("ValidatingAdmissionPolicy", &[ 0xff, 0xff, 0xff ]).is_none());
}

#[test]
fn decode_core_proto_by_kind_dispatches_validatingadmissionpolicybinding() {
    let obj_meta = encode_length_delimited(1, b"test-vapb");
    let proto = encode_length_delimited(1, &obj_meta);
    let result = decode("ValidatingAdmissionPolicyBinding", &proto).unwrap();
    assert_eq!(result["kind"], "ValidatingAdmissionPolicyBinding");
    assert_eq!(result["apiVersion"], "admissionregistration.k8s.io/v1");
    assert_eq!(result["metadata"]["name"], "test-vapb");
}

#[test]
fn decode_validatingadmissionpolicybinding_proto_preserves_spec_on_put() {
    let mut spec: Vec<u8> = Vec::new();
    spec.extend_from_slice(&encode_length_delimited(1, b"my-vap-policy"));
    spec.extend_from_slice(&encode_length_delimited(4, b"Deny"));
    spec.extend_from_slice(&encode_length_delimited(4, b"Audit"));
    let obj_meta = encode_length_delimited(1, b"test-vapb-spec");
    let mut proto = encode_length_delimited(1, &obj_meta);
    proto.extend_from_slice(&encode_length_delimited(2, &spec));
    let result = decode("ValidatingAdmissionPolicyBinding", &proto).unwrap();
    assert_eq!(result["metadata"]["name"], "test-vapb-spec");
    assert_eq!(result["spec"]["policyName"], "my-vap-policy");
    let actions = result["spec"]["validationActions"].as_array().unwrap();
    assert_eq!(actions.len(), 2);
    assert_eq!(actions[0], "Deny");
    assert_eq!(actions[1], "Audit");
}

#[test]
fn decode_validatingadmissionpolicybinding_proto_returns_none_for_garbage() {
    assert!(decode("ValidatingAdmissionPolicyBinding", &[ 0xff, 0xff, 0xff ]).is_none());
}

#[test]
fn decode_core_proto_by_kind_dispatches_controllerrevision() {
    let mut obj_meta = encode_length_delimited(1, b"my-ds-abc123");
    obj_meta.extend_from_slice(&encode_length_delimited(3, b"default"));
    let raw_ext = encode_length_delimited(1, b"{}");
    let mut cr_proto = encode_length_delimited(1, &obj_meta);
    cr_proto.extend_from_slice(&encode_length_delimited(2, &raw_ext));
    cr_proto.push(0x18);
    cr_proto.extend_from_slice(&encode_varint(3));
    let result = decode("ControllerRevision", &cr_proto).unwrap();
    assert_eq!(result["kind"], "ControllerRevision");
    assert_eq!(result["apiVersion"], "apps/v1");
    assert_eq!(result["metadata"]["name"], "my-ds-abc123");
    assert_eq!(result["metadata"]["namespace"], "default");
    assert_eq!(result["revision"], 3);
}

#[test]
fn decode_controllerrevision_proto_returns_none_for_garbage() {
    assert!(decode("ControllerRevision", &[0xff, 0xff, 0xff]).is_none());
}

#[test]
fn decode_deployment_proto_preserves_spec_replicas() {
    let mut spec_bytes = vec![0x08, 0x03];
    let mut label_entry = encode_length_delimited(1, b"app");
    label_entry.extend_from_slice(&encode_length_delimited(2, b"test"));
    let selector_bytes = encode_length_delimited(1, &label_entry);
    let tmpl_meta_bytes = encode_length_delimited(11, &label_entry);
    let template_bytes = encode_length_delimited(1, &tmpl_meta_bytes);
    spec_bytes.extend_from_slice(&encode_length_delimited(2, &selector_bytes));
    spec_bytes.extend_from_slice(&encode_length_delimited(3, &template_bytes));
    let name_bytes = encode_length_delimited(1, b"my-deploy");
    let mut proto = encode_length_delimited(1, &name_bytes);
    proto.extend_from_slice(&encode_length_delimited(2, &spec_bytes));
    let result = decode("Deployment", &proto).unwrap();
    assert_eq!(result["spec"]["replicas"], 3);
}

#[test]
fn decode_statefulset_proto_preserves_spec_replicas() {
    let mut spec_bytes = vec![0x08, 0x05];
    let mut label_entry = encode_length_delimited(1, b"app");
    label_entry.extend_from_slice(&encode_length_delimited(2, b"sts-test"));
    let selector_bytes = encode_length_delimited(1, &label_entry);
    let tmpl_meta_bytes = encode_length_delimited(11, &label_entry);
    let template_bytes = encode_length_delimited(1, &tmpl_meta_bytes);
    spec_bytes.extend_from_slice(&encode_length_delimited(2, &selector_bytes));
    spec_bytes.extend_from_slice(&encode_length_delimited(3, &template_bytes));
    let name_bytes = encode_length_delimited(1, b"my-sts");
    let mut proto = encode_length_delimited(1, &name_bytes);
    proto.extend_from_slice(&encode_length_delimited(2, &spec_bytes));
    let result = decode("StatefulSet", &proto).unwrap();
    assert_eq!(result["spec"]["replicas"], 5);
}

#[test]
fn decode_statefulset_proto_preserves_status_conditions_for_updatestatus_round_trip() {
    let mut cond_bytes = encode_length_delimited(1, b"StatusUpdate");
    cond_bytes.extend_from_slice(&encode_length_delimited(2, b"True"));
    cond_bytes.extend_from_slice(&encode_length_delimited(4, b"E2E"));
    let status_bytes = encode_length_delimited(10, &cond_bytes);
    let mut label_entry = encode_length_delimited(1, b"app");
    label_entry.extend_from_slice(&encode_length_delimited(2, b"sts-e2e"));
    let selector_bytes = encode_length_delimited(1, &label_entry);
    let tmpl_meta_bytes = encode_length_delimited(11, &label_entry);
    let template_bytes = encode_length_delimited(1, &tmpl_meta_bytes);
    let mut spec_bytes = vec![0x08, 0x01];
    spec_bytes.extend_from_slice(&encode_length_delimited(2, &selector_bytes));
    spec_bytes.extend_from_slice(&encode_length_delimited(3, &template_bytes));
    let name_bytes = encode_length_delimited(1, b"my-sts");
    let mut proto = encode_length_delimited(1, &name_bytes);
    proto.extend_from_slice(&encode_length_delimited(2, &spec_bytes));
    proto.extend_from_slice(&encode_length_delimited(3, &status_bytes));
    let result = decode("StatefulSet", &proto).unwrap();
    assert_eq!(result["status"]["conditions"][0]["type"], "StatusUpdate");
    assert_eq!(result["status"]["conditions"][0]["status"], "True");
    assert_eq!(result["status"]["conditions"][0]["reason"], "E2E");
    assert!(result["spec"].is_object());
}

#[test]
fn decode_replicaset_proto_preserves_spec_replicas() {
    let mut spec_bytes = vec![0x08, 0x04];
    let mut label_entry = encode_length_delimited(1, b"app");
    label_entry.extend_from_slice(&encode_length_delimited(2, b"rs-test"));
    let selector_bytes = encode_length_delimited(1, &label_entry);
    let tmpl_meta_bytes = encode_length_delimited(11, &label_entry);
    let template_bytes = encode_length_delimited(1, &tmpl_meta_bytes);
    spec_bytes.extend_from_slice(&encode_length_delimited(2, &selector_bytes));
    spec_bytes.extend_from_slice(&encode_length_delimited(3, &template_bytes));
    let name_bytes = encode_length_delimited(1, b"my-rs");
    let mut proto = encode_length_delimited(1, &name_bytes);
    proto.extend_from_slice(&encode_length_delimited(2, &spec_bytes));
    let result = decode("ReplicaSet", &proto).unwrap();
    assert_eq!(result["spec"]["replicas"], 4);
}

#[test]
fn decode_deployment_proto_replicas_zero_not_dropped() {
    let mut spec_bytes = vec![];
    let mut label_entry = encode_length_delimited(1, b"app");
    label_entry.extend_from_slice(&encode_length_delimited(2, b"test"));
    let selector_bytes = encode_length_delimited(1, &label_entry);
    let tmpl_meta_bytes = encode_length_delimited(11, &label_entry);
    let template_bytes = encode_length_delimited(1, &tmpl_meta_bytes);
    spec_bytes.extend_from_slice(&encode_length_delimited(2, &selector_bytes));
    spec_bytes.extend_from_slice(&encode_length_delimited(3, &template_bytes));
    let name_bytes = encode_length_delimited(1, b"my-deploy");
    let mut proto = encode_length_delimited(1, &name_bytes);
    proto.extend_from_slice(&encode_length_delimited(2, &spec_bytes));
    let result = decode("Deployment", &proto).unwrap();
    assert_eq!(result["spec"]["replicas"], 0);
}

#[test]
fn decode_statefulset_proto_replicas_zero_not_dropped() {
    let mut spec_bytes = vec![];
    let mut label_entry = encode_length_delimited(1, b"app");
    label_entry.extend_from_slice(&encode_length_delimited(2, b"sts-test"));
    let selector_bytes = encode_length_delimited(1, &label_entry);
    let tmpl_meta_bytes = encode_length_delimited(11, &label_entry);
    let template_bytes = encode_length_delimited(1, &tmpl_meta_bytes);
    spec_bytes.extend_from_slice(&encode_length_delimited(2, &selector_bytes));
    spec_bytes.extend_from_slice(&encode_length_delimited(3, &template_bytes));
    let name_bytes = encode_length_delimited(1, b"my-sts");
    let mut proto = encode_length_delimited(1, &name_bytes);
    proto.extend_from_slice(&encode_length_delimited(2, &spec_bytes));
    let result = decode("StatefulSet", &proto).unwrap();
    assert_eq!(result["spec"]["replicas"], 0);
}

#[test]
fn decode_replicaset_proto_replicas_zero_not_dropped() {
    let mut spec_bytes = vec![];
    let mut label_entry = encode_length_delimited(1, b"app");
    label_entry.extend_from_slice(&encode_length_delimited(2, b"rs-test"));
    let selector_bytes = encode_length_delimited(1, &label_entry);
    let tmpl_meta_bytes = encode_length_delimited(11, &label_entry);
    let template_bytes = encode_length_delimited(1, &tmpl_meta_bytes);
    spec_bytes.extend_from_slice(&encode_length_delimited(2, &selector_bytes));
    spec_bytes.extend_from_slice(&encode_length_delimited(3, &template_bytes));
    let name_bytes = encode_length_delimited(1, b"my-rs");
    let mut proto = encode_length_delimited(1, &name_bytes);
    proto.extend_from_slice(&encode_length_delimited(2, &spec_bytes));
    let result = decode("ReplicaSet", &proto).unwrap();
    assert_eq!(result["spec"]["replicas"], 0);
}

#[test]
fn decode_replicationcontroller_proto_replicas_zero_not_dropped() {
    let mut map_entry = encode_length_delimited(1, b"app");
    map_entry.extend_from_slice(&encode_length_delimited(2, b"rc-test"));
    let spec_bytes = encode_length_delimited(2, &map_entry);
    let name_bytes = encode_length_delimited(1, b"my-rc");
    let mut proto = encode_length_delimited(1, &name_bytes);
    proto.extend_from_slice(&encode_length_delimited(2, &spec_bytes));
    let result = decode("ReplicationController", &proto).unwrap();
    assert_eq!(result["spec"]["replicas"], 0);
}

#[test]
fn decode_statefulset_proto_preserves_update_strategy_partition() {
    let rolling_update_bytes = vec![0x08, 0x03];
    let mut us_bytes = encode_length_delimited(1, b"RollingUpdate");
    us_bytes.extend_from_slice(&encode_length_delimited(2, &rolling_update_bytes));
    let mut label_entry = encode_length_delimited(1, b"app");
    label_entry.extend_from_slice(&encode_length_delimited(2, b"sts-canary"));
    let selector_bytes = encode_length_delimited(1, &label_entry);
    let tmpl_meta_bytes = encode_length_delimited(11, &label_entry);
    let template_bytes = encode_length_delimited(1, &tmpl_meta_bytes);
    let mut spec_bytes = vec![0x08, 0x03];
    spec_bytes.extend_from_slice(&encode_length_delimited(2, &selector_bytes));
    spec_bytes.extend_from_slice(&encode_length_delimited(3, &template_bytes));
    spec_bytes.extend_from_slice(&encode_length_delimited(7, &us_bytes));
    let name_bytes = encode_length_delimited(1, b"canary-sts");
    let mut proto = encode_length_delimited(1, &name_bytes);
    proto.extend_from_slice(&encode_length_delimited(2, &spec_bytes));
    let result = decode("StatefulSet", &proto).unwrap();
    assert_eq!(result["spec"]["updateStrategy"]["type"], "RollingUpdate");
    assert_eq!(result["spec"]["updateStrategy"]["rollingUpdate"]["partition"], 3);
}

#[test]
fn decode_statefulset_proto_preserves_metadata_generation() {
    let name_bytes = encode_length_delimited(1, b"ss2");
    let mut meta_bytes = encode_length_delimited(1, &name_bytes);
    meta_bytes.extend_from_slice(&[0x38, 0x02]);
    let mut label_entry = encode_length_delimited(1, b"app");
    label_entry.extend_from_slice(&encode_length_delimited(2, b"test"));
    let selector_bytes = encode_length_delimited(1, &label_entry);
    let tmpl_meta_bytes = encode_length_delimited(11, &label_entry);
    let template_bytes = encode_length_delimited(1, &tmpl_meta_bytes);
    let mut spec_bytes = vec![0x08, 0x01];
    spec_bytes.extend_from_slice(&encode_length_delimited(2, &selector_bytes));
    spec_bytes.extend_from_slice(&encode_length_delimited(3, &template_bytes));
    let mut proto = encode_length_delimited(1, &meta_bytes);
    proto.extend_from_slice(&encode_length_delimited(2, &spec_bytes));
    let result = decode("StatefulSet", &proto).unwrap();
    assert_eq!(result["metadata"]["generation"], 2);
}

#[test]
fn projected_configmap_items_survive_proto_decode() {
    let mut key_to_path = encode_length_delimited(1, b"data-2");
    key_to_path.extend_from_slice(&encode_length_delimited(2, b"path/to/data-2"));
    let lor = encode_length_delimited(1, b"test-configmap");
    let mut cm_proj = encode_length_delimited(1, &lor);
    cm_proj.extend_from_slice(&encode_length_delimited(2, &key_to_path));
    let proj_entry = encode_length_delimited(3, &cm_proj);
    let proj_src = encode_length_delimited(1, &proj_entry);
    let volume_source = encode_length_delimited(26, &proj_src);
    let mut volume = encode_length_delimited(1, b"projected-vol");
    volume.extend_from_slice(&encode_length_delimited(2, &volume_source));
    let container = encode_length_delimited(1, b"app");
    let mut podspec = encode_length_delimited(1, &volume);
    podspec.extend_from_slice(&encode_length_delimited(2, &container));
    let obj_meta = encode_length_delimited(1, b"test-pod");
    let mut pod_proto = encode_length_delimited(1, &obj_meta);
    pod_proto.extend_from_slice(&encode_length_delimited(2, &podspec));
    let result = decode("Pod", &pod_proto).unwrap();
    let sources = result["spec"]["volumes"][0]["projected"]["sources"].as_array().unwrap();
    assert_eq!(sources.len(), 1);
    let cm = &sources[0]["configMap"];
    assert_eq!(cm["name"], "test-configmap");
    let items = cm["items"].as_array().unwrap();
    assert_eq!(items.len(), 1);
    assert_eq!(items[0]["key"], "data-2");
    assert_eq!(items[0]["path"], "path/to/data-2");
}

#[test]
fn projected_secret_items_survive_proto_decode() {
    let mut key_to_path = encode_length_delimited(1, b"secret-key");
    key_to_path.extend_from_slice(&encode_length_delimited(2, b"new-path-data-1"));
    let lor = encode_length_delimited(1, b"test-secret");
    let mut sec_proj = encode_length_delimited(1, &lor);
    sec_proj.extend_from_slice(&encode_length_delimited(2, &key_to_path));
    let proj_entry = encode_length_delimited(1, &sec_proj);
    let proj_src = encode_length_delimited(1, &proj_entry);
    let volume_source = encode_length_delimited(26, &proj_src);
    let mut volume = encode_length_delimited(1, b"projected-sec");
    volume.extend_from_slice(&encode_length_delimited(2, &volume_source));
    let container = encode_length_delimited(1, b"app");
    let mut podspec = encode_length_delimited(1, &volume);
    podspec.extend_from_slice(&encode_length_delimited(2, &container));
    let obj_meta = encode_length_delimited(1, b"test-pod");
    let mut pod_proto = encode_length_delimited(1, &obj_meta);
    pod_proto.extend_from_slice(&encode_length_delimited(2, &podspec));
    let result = decode("Pod", &pod_proto).unwrap();
    let sources = result["spec"]["volumes"][0]["projected"]["sources"].as_array().unwrap();
    assert_eq!(sources.len(), 1);
    let sec = &sources[0]["secret"];
    assert_eq!(sec["name"], "test-secret");
    let items = sec["items"].as_array().unwrap();
    assert_eq!(items.len(), 1);
    assert_eq!(items[0]["key"], "secret-key");
    assert_eq!(items[0]["path"], "new-path-data-1");
}

#[test]
fn flat_configmap_volume_items_survive_proto_decode() {
    let mut key_to_path = encode_length_delimited(1, b"ca.crt");
    key_to_path.extend_from_slice(&encode_length_delimited(2, b"ca.crt"));
    let lor = encode_length_delimited(1, b"kube-root-ca.crt");
    let mut cm_vol_src = encode_length_delimited(1, &lor);
    cm_vol_src.extend_from_slice(&encode_length_delimited(2, &key_to_path));
    let volume_source = encode_length_delimited(19, &cm_vol_src);
    let mut volume = encode_length_delimited(1, b"ca-vol");
    volume.extend_from_slice(&encode_length_delimited(2, &volume_source));
    let container = encode_length_delimited(1, b"app");
    let mut podspec = encode_length_delimited(1, &volume);
    podspec.extend_from_slice(&encode_length_delimited(2, &container));
    let obj_meta = encode_length_delimited(1, b"test-pod");
    let mut pod_proto = encode_length_delimited(1, &obj_meta);
    pod_proto.extend_from_slice(&encode_length_delimited(2, &podspec));
    let result = decode("Pod", &pod_proto).unwrap();
    let cm = &result["spec"]["volumes"][0]["configMap"];
    assert_eq!(cm["name"], "kube-root-ca.crt");
    let items = cm["items"].as_array().unwrap();
    assert_eq!(items.len(), 1);
    assert_eq!(items[0]["key"], "ca.crt");
    assert_eq!(items[0]["path"], "ca.crt");
}

#[test]
fn flat_secret_volume_items_survive_proto_decode() {
    let mut key_to_path = encode_length_delimited(1, b"tls.crt");
    key_to_path.extend_from_slice(&encode_length_delimited(2, b"tls.crt"));
    let mut sec_vol_src = encode_length_delimited(1, b"tls-secret");
    sec_vol_src.extend_from_slice(&encode_length_delimited(2, &key_to_path));
    let volume_source = encode_length_delimited(6, &sec_vol_src);
    let mut volume = encode_length_delimited(1, b"tls-vol");
    volume.extend_from_slice(&encode_length_delimited(2, &volume_source));
    let container = encode_length_delimited(1, b"app");
    let mut podspec = encode_length_delimited(1, &volume);
    podspec.extend_from_slice(&encode_length_delimited(2, &container));
    let obj_meta = encode_length_delimited(1, b"test-pod");
    let mut pod_proto = encode_length_delimited(1, &obj_meta);
    pod_proto.extend_from_slice(&encode_length_delimited(2, &podspec));
    let result = decode("Pod", &pod_proto).unwrap();
    let sec = &result["spec"]["volumes"][0]["secret"];
    assert_eq!(sec["secretName"], "tls-secret");
    let items = sec["items"].as_array().unwrap();
    assert_eq!(items.len(), 1);
    assert_eq!(items[0]["key"], "tls.crt");
    assert_eq!(items[0]["path"], "tls.crt");
}

#[test]
fn decode_serviceaccount_proto_preserves_image_pull_secrets() {
    let buf = message(&[
        encode_length_delimited(1, &message(&[text(1, "my-sa"), text(3, "default")])),
        encode_length_delimited(3, &text(1, "my-registry-secret")),
        number(4, 0),
    ]);
    let result = decode("ServiceAccount", &buf).unwrap();
    assert_eq!(result["kind"], "ServiceAccount");
    assert_eq!(result["metadata"]["name"], "my-sa");
    let ips = result["imagePullSecrets"].as_array().unwrap();
    assert_eq!(ips.len(), 1);
    assert_eq!(ips[0]["name"], "my-registry-secret");
    assert_eq!(result["automountServiceAccountToken"], false);
}

#[test]
fn decode_persistentvolumeclaim_proto_preserves_spec() {
    let quantity = text(1, "1Gi");
    let entry = message(&[text(1, "storage"), encode_length_delimited(2, &quantity)]);
    let resources = encode_length_delimited(2, &entry);
    let spec = message(&[
        text(1, "ReadWriteOnce"),
        encode_length_delimited(2, &resources),
        text(5, "standard"),
        text(6, "Filesystem"),
    ]);
    let buf = message(&[
        encode_length_delimited(1, &message(&[text(1, "my-pvc"), text(3, "default")])),
        encode_length_delimited(2, &spec),
    ]);
    let result = decode("PersistentVolumeClaim", &buf).unwrap();
    assert_eq!(result["kind"], "PersistentVolumeClaim");
    assert_eq!(result["metadata"]["name"], "my-pvc");
    let access_modes = result["spec"]["accessModes"].as_array().unwrap();
    assert_eq!(access_modes.len(), 1);
    assert_eq!(access_modes[0], "ReadWriteOnce");
    assert_eq!(result["spec"]["storageClassName"], "standard");
    assert_eq!(result["spec"]["resources"]["requests"]["storage"], "1Gi");
}

#[test]
fn decode_persistentvolumeclaim_proto_preserves_status_conditions() {
    let condition = message(&[
        text(1, "StatusUpdated"),
        text(2, "True"),
        text(5, "CSITest"),
        text(6, "applied by conformance test"),
    ]);
    let status = message(&[text(1, "Bound"), encode_length_delimited(4, &condition)]);
    let buf = message(&[
        encode_length_delimited(1, &message(&[text(1, "status-pvc"), text(3, "default")])),
        encode_length_delimited(3, &status),
    ]);
    let result = decode("PersistentVolumeClaim", &buf).unwrap();
    assert_eq!(result["kind"], "PersistentVolumeClaim");
    assert_eq!(result["metadata"]["name"], "status-pvc");
    assert_eq!(result["status"]["phase"], "Bound");
    let conditions = result["status"]["conditions"].as_array().unwrap();
    assert_eq!(conditions.len(), 1);
    assert_eq!(conditions[0]["type"], "StatusUpdated");
    assert_eq!(conditions[0]["status"], "True");
    assert_eq!(conditions[0]["reason"], "CSITest");
}

#[test]
fn decode_storageclass_proto_preserves_provisioner_and_parameters() {
    let obj_meta = encode_length_delimited(1, b"fast");
    let mut param_entry = encode_length_delimited(1, b"type");
    param_entry.extend_from_slice(&encode_length_delimited(2, b"gp2"));
    let mut buf = encode_length_delimited(1, &obj_meta);
    buf.extend_from_slice(&encode_length_delimited(2, b"kubernetes.io/no-provisioner"));
    buf.extend_from_slice(&encode_length_delimited(3, &param_entry));
    buf.extend_from_slice(&encode_length_delimited(4, b"Retain"));
    buf.push(6 << 3);
    buf.push(1);
    buf.extend_from_slice(&encode_length_delimited(7, b"WaitForFirstConsumer"));
    let result = decode("StorageClass", &buf).unwrap();
    assert_eq!(result["kind"], "StorageClass");
    assert_eq!(result["metadata"]["name"], "fast");
    assert_eq!(result["provisioner"], "kubernetes.io/no-provisioner");
    assert_eq!(result["parameters"]["type"], "gp2");
    assert_eq!(result["reclaimPolicy"], "Retain");
    assert_eq!(result["volumeBindingMode"], "WaitForFirstConsumer");
    assert_eq!(result["allowVolumeExpansion"], true);
}

#[test]
fn decode_volumeattributesclass_proto_preserves_driver_name_and_parameters() {
    let obj_meta = encode_length_delimited(1, b"silver");
    let mut param_entry = encode_length_delimited(1, b"iops");
    param_entry.extend_from_slice(&encode_length_delimited(2, b"3000"));
    let mut buf = encode_length_delimited(1, &obj_meta);
    buf.extend_from_slice(&encode_length_delimited(2, b"pd.csi.storage.gke.io"));
    buf.extend_from_slice(&encode_length_delimited(3, &param_entry));
    let result = decode("VolumeAttributesClass", &buf).unwrap();
    assert_eq!(result["kind"], "VolumeAttributesClass");
    assert_eq!(result["metadata"]["name"], "silver");
    assert_eq!(result["driverName"], "pd.csi.storage.gke.io");
    assert_eq!(result["parameters"]["iops"], "3000");
}

#[test]
fn decode_replicationcontroller_proto_preserves_template_containers() {
    let container = message(&[text(1, "web"), text(2, "nginx:latest")]);
    let pod_spec = message(&[encode_length_delimited(2, &container), text(3, "Always")]);
    let template = encode_length_delimited(2, &pod_spec);
    let entry = message(&[text(1, "app"), text(2, "web")]);
    let spec = message(&[
        number(1, 2),
        encode_length_delimited(2, &entry),
        encode_length_delimited(3, &template),
    ]);
    let buf = message(&[
        encode_length_delimited(1, &message(&[text(1, "my-rc"), text(3, "default")])),
        encode_length_delimited(2, &spec),
    ]);
    let result = decode("ReplicationController", &buf).unwrap();
    assert_eq!(result["kind"], "ReplicationController");
    assert_eq!(result["metadata"]["name"], "my-rc");
    assert_eq!(result["spec"]["replicas"], 2);
    let containers = result["spec"]["template"]["spec"]["containers"].as_array().unwrap();
    assert_eq!(containers.len(), 1);
    assert_eq!(containers[0]["name"], "web");
    assert_eq!(containers[0]["image"], "nginx:latest");
}

#[test]
fn service_status_update_preserves_conditions_so_status_lifecycle_watchers_converge() {
    let mut cond_bytes = encode_length_delimited(1, b"StatusUpdate");
    cond_bytes.extend_from_slice(&encode_length_delimited(2, b"True"));
    cond_bytes.extend_from_slice(&encode_length_delimited(5, b"E2E"));
    cond_bytes.extend_from_slice(&encode_length_delimited(6, b"Set from e2e test"));
    let status_bytes = encode_length_delimited(2, &cond_bytes);
    let name_bytes = encode_length_delimited(1, b"svc-lifecycle");
    let mut proto = encode_length_delimited(1, &name_bytes);
    proto.extend_from_slice(&encode_length_delimited(3, &status_bytes));
    let result = decode("Service", &proto).unwrap();
    assert_eq!(result["status"]["conditions"][0]["type"], "StatusUpdate");
    assert_eq!(result["status"]["conditions"][0]["status"], "True");
    assert_eq!(result["status"]["conditions"][0]["reason"], "E2E");
    assert_eq!(result["status"]["conditions"][0]["message"], "Set from e2e test");
}

#[test]
fn condition_last_transition_time_survives_proto_decode_so_status_conditions_are_api_valid() {
    let mut time_bytes = encode_varint(0x08);
    time_bytes.extend_from_slice(&encode_varint(1_704_067_200u64));
    let mut cond_bytes = encode_length_delimited(1, b"Ready");
    cond_bytes.extend_from_slice(&encode_length_delimited(2, b"True"));
    cond_bytes.extend_from_slice(&encode_length_delimited(4, &time_bytes));
    let status_bytes = encode_length_delimited(2, &cond_bytes);
    let name_bytes = encode_length_delimited(1, b"svc-ltt");
    let mut proto = encode_length_delimited(1, &name_bytes);
    proto.extend_from_slice(&encode_length_delimited(3, &status_bytes));
    let result = decode("Service", &proto).unwrap();
    assert_eq!(result["status"]["conditions"][0]["lastTransitionTime"], "2024-01-01T00:00:00Z");
}

#[test]
fn decode_delete_options_proto_extracts_propagation_policy_orphan() {
    let policy_bytes = b"Orphan";
    let proto = encode_length_delimited(4, policy_bytes);
    let result = decode("DeleteOptions", &proto).unwrap();
    assert_eq!(result["propagationPolicy"], "Orphan");
}

#[test]
fn decode_container_proto_preserves_resize_policy() {
    let mut crp_cpu = encode_length_delimited(1, b"cpu");
    crp_cpu.extend_from_slice(&encode_length_delimited(2, b"NotRequired"));
    let mut crp_mem = encode_length_delimited(1, b"memory");
    crp_mem.extend_from_slice(&encode_length_delimited(2, b"RestartContainer"));
    let mut container = encode_length_delimited(1, b"app");
    container.extend_from_slice(&encode_length_delimited(2, b"app:latest"));
    container.extend_from_slice(&encode_length_delimited(23, &crp_cpu));
    container.extend_from_slice(&encode_length_delimited(23, &crp_mem));
    let pod_spec = encode_length_delimited(2, &container);
    let mut obj_meta = encode_length_delimited(1, b"resize-test");
    obj_meta.extend_from_slice(&encode_length_delimited(3, b"default"));
    let mut pod_proto = encode_length_delimited(1, &obj_meta);
    pod_proto.extend_from_slice(&encode_length_delimited(2, &pod_spec));
    let result = decode("Pod", &pod_proto).unwrap();
    let containers = result["spec"]["containers"].as_array().unwrap();
    assert_eq!(containers.len(), 1);
    let resize_policy = containers[0]["resizePolicy"].as_array().unwrap();
    assert_eq!(resize_policy.len(), 2);
    assert_eq!(resize_policy[0]["resourceName"], "cpu");
    assert_eq!(resize_policy[0]["restartPolicy"], "NotRequired");
    assert_eq!(resize_policy[1]["resourceName"], "memory");
    assert_eq!(resize_policy[1]["restartPolicy"], "RestartContainer");
}

#[test]
fn decode_delete_options_proto_extracts_orphan_dependents_true() {
    let tag = encode_varint(3 << 3);
    let mut proto = tag;
    proto.push(1);
    let result = decode("DeleteOptions", &proto).unwrap();
    assert_eq!(result["orphanDependents"], true);
}

#[test]
fn decode_replicationcontroller_proto_preserves_status_else_controllers_see_zero_and_loop() {
    let condition = message(&[text(1, "ReplicaFailure"), text(2, "False")]);
    let status = message(&[
        number(1, 3),
        number(2, 3),
        number(3, 7),
        number(4, 2),
        number(5, 2),
        encode_length_delimited(6, &condition),
    ]);
    let proto = message(&[
        encode_length_delimited(1, &text(1, "my-rc")),
        encode_length_delimited(3, &status),
    ]);
    let result = decode("ReplicationController", &proto).unwrap();
    assert_eq!(result["status"]["replicas"], 3);
    assert_eq!(result["status"]["readyReplicas"], 2);
    assert_eq!(result["status"]["fullyLabeledReplicas"], 3);
    assert_eq!(result["status"]["observedGeneration"], 7);
    assert_eq!(result["status"]["availableReplicas"], 2);
    assert_eq!(result["status"]["conditions"][0]["type"], "ReplicaFailure");
}

#[test]
fn decode_daemonset_proto_preserves_status_else_node_readiness_checks_see_zero_and_stall() {
    let condition = message(&[text(1, "Available"), text(2, "True")]);
    let status = message(&[
        number(1, 5),
        number(2, 1),
        number(3, 5),
        number(4, 4),
        number(5, 2),
        number(6, 5),
        number(7, 4),
        number(8, 1),
        encode_length_delimited(10, &condition),
    ]);
    let proto = message(&[
        encode_length_delimited(1, &text(1, "my-ds")),
        encode_length_delimited(3, &status),
    ]);
    let result = decode("DaemonSet", &proto).unwrap();
    assert_eq!(result["status"]["currentNumberScheduled"], 5);
    assert_eq!(result["status"]["numberReady"], 4);
    assert_eq!(result["status"]["desiredNumberScheduled"], 5);
    assert_eq!(result["status"]["numberAvailable"], 4);
    assert_eq!(result["status"]["observedGeneration"], 2);
    assert_eq!(result["status"]["conditions"][0]["type"], "Available");
}

#[test]
fn decode_job_proto_preserves_status_else_cronjob_gc_cannot_see_completion_and_loops() {
    let condition = message(&[text(1, "Complete"), text(2, "True")]);
    let status = message(&[
        encode_length_delimited(1, &condition),
        number(5, 3),
        number(6, 1),
        text(7, "0-2"),
    ]);
    let proto = message(&[
        encode_length_delimited(1, &text(1, "my-job")),
        encode_length_delimited(3, &status),
    ]);
    let result = decode("Job", &proto).unwrap();
    assert_eq!(result["status"]["succeeded"], 3);
    assert_eq!(result["status"]["failed"], 1);
    assert_eq!(result["status"]["completedIndexes"], "0-2");
    assert_eq!(result["status"]["conditions"][0]["type"], "Complete");
    assert_eq!(result["status"]["conditions"][0]["status"], "True");
}

#[test]
fn decode_cronjob_proto_preserves_status_active_else_concurrency_control_is_blind() {
    let active = message(&[
        text(1, "Job"),
        text(2, "default"),
        text(3, "my-cronjob-abc"),
        text(4, "uid-123"),
        text(5, "batch/v1"),
    ]);
    let spec = message(&[
        text(1, "*/5 * * * *"),
        text(3, "Forbid"),
        number(6, 3),
        number(7, 1),
    ]);
    let proto = message(&[
        encode_length_delimited(1, &text(1, "my-cronjob")),
        encode_length_delimited(2, &spec),
        encode_length_delimited(3, &encode_length_delimited(1, &active)),
    ]);
    let result = decode("CronJob", &proto).unwrap();
    assert_eq!(result["status"]["active"][0]["name"], "my-cronjob-abc");
    assert_eq!(result["status"]["active"][0]["namespace"], "default");
    assert_eq!(result["status"]["active"][0]["kind"], "Job");
}

#[test]
fn decode_container_proto_preserves_restart_policy_else_sidecar_becomes_blocking_init() {
    let mut container = encode_length_delimited(1, b"sidecar");
    container.extend_from_slice(&encode_length_delimited(2, b"busybox:latest"));
    container.extend_from_slice(&encode_length_delimited(24, b"Always"));
    let pod_spec = encode_length_delimited(2, &container);
    let mut obj_meta = encode_length_delimited(1, b"sidecar-pod");
    obj_meta.extend_from_slice(&encode_length_delimited(3, b"default"));
    let mut pod_proto = encode_length_delimited(1, &obj_meta);
    pod_proto.extend_from_slice(&encode_length_delimited(2, &pod_spec));
    let result = decode("Pod", &pod_proto).unwrap();
    let containers = result["spec"]["containers"].as_array().unwrap();
    assert_eq!(containers.len(), 1);
    assert_eq!(containers[0]["restartPolicy"], "Always");
}

#[test]
fn decode_deployment_proto_preserves_status_else_controllers_see_empty_status_and_hang() {
    let condition = message(&[
        text(1, "Available"),
        text(2, "True"),
        text(4, "MinimumReplicasAvailable"),
        text(5, "Deployment has minimum availability."),
    ]);
    let status = message(&[
        number(1, 3),
        number(2, 5),
        number(3, 5),
        number(4, 4),
        number(5, 1),
        encode_length_delimited(6, &condition),
        number(7, 4),
    ]);
    let proto = message(&[
        encode_length_delimited(1, &text(1, "my-deploy")),
        encode_length_delimited(3, &status),
    ]);
    let result = decode("Deployment", &proto).unwrap();
    assert_eq!(result["status"]["observedGeneration"], 3);
    assert_eq!(result["status"]["replicas"], 5);
    assert_eq!(result["status"]["readyReplicas"], 4);
    assert_eq!(result["status"]["availableReplicas"], 4);
    assert_eq!(result["status"]["unavailableReplicas"], 1);
    assert_eq!(result["status"]["updatedReplicas"], 5);
    assert_eq!(result["status"]["conditions"][0]["type"], "Available");
    assert_eq!(result["status"]["conditions"][0]["status"], "True");
    assert_eq!(result["status"]["conditions"][0]["reason"], "MinimumReplicasAvailable");
}

#[test]
fn decode_replicaset_proto_preserves_status_else_deployment_controller_cannot_compute_status() {
    let condition = message(&[text(1, "ReplicaFailure"), text(2, "False")]);
    let status = message(&[
        number(1, 3),
        number(2, 3),
        number(3, 2),
        number(4, 2),
        number(5, 2),
        encode_length_delimited(6, &condition),
    ]);
    let proto = message(&[
        encode_length_delimited(1, &text(1, "my-rs")),
        encode_length_delimited(3, &status),
    ]);
    let result = decode("ReplicaSet", &proto).unwrap();
    assert_eq!(result["status"]["replicas"], 3);
    assert_eq!(result["status"]["readyReplicas"], 2);
    assert_eq!(result["status"]["availableReplicas"], 2);
    assert_eq!(result["status"]["observedGeneration"], 2);
    assert_eq!(result["status"]["fullyLabeledReplicas"], 3);
    assert_eq!(result["status"]["conditions"][0]["type"], "ReplicaFailure");
    assert_eq!(result["status"]["conditions"][0]["status"], "False");
}

#[test]
fn decode_crd_gen_carries_openapiv3schema_and_printer_columns_previously_dropped() {
    let property = message(&[text(1, "spec"), encode_length_delimited(2, &text(5, "object"))]);
    let schema_props = message(&[
        text(4, "A test CRD schema"),
        text(5, "object"),
        text(23, "spec"),
        encode_length_delimited(29, &property),
    ]);
    let column = message(&[text(1, "Phase"), text(2, "string"), text(6, ".status.phase")]);
    let version = message(&[
        text(1, "v1"),
        number(2, 1),
        number(3, 1),
        encode_length_delimited(4, &encode_length_delimited(1, &schema_props)),
        encode_length_delimited(6, &column),
    ]);
    let names = message(&[text(1, "widgets"), text(2, "widget"), text(4, "Widget")]);
    let spec = message(&[
        text(1, "example.io"),
        encode_length_delimited(3, &names),
        text(4, "Namespaced"),
        encode_length_delimited(7, &version),
    ]);
    let buf = message(&[
        encode_length_delimited(1, &text(1, "widgets.example.io")),
        encode_length_delimited(2, &spec),
    ]);
    let result = decode("CustomResourceDefinition", &buf).unwrap();
    let versions = result["spec"]["versions"].as_array().unwrap();
    assert_eq!(versions.len(), 1);
    let schema_type = &versions[0]["schema"]["openAPIV3Schema"]["type"];
    assert_eq!(schema_type, "object");
    let required = versions[0]["schema"]["openAPIV3Schema"]["required"].as_array().unwrap();
    assert!(required.iter().any(|v| v == "spec"));
    let props = &versions[0]["schema"]["openAPIV3Schema"]["properties"]["spec"]["type"];
    assert_eq!(props, "object");
    let cols = versions[0]["additionalPrinterColumns"].as_array().unwrap();
    assert_eq!(cols[0]["name"], "Phase");
    assert_eq!(cols[0]["jsonPath"], ".status.phase");
}

#[test]
fn decode_crd_gen_carries_status_conditions_previously_dropped() {
    let names = message(&[text(1, "widgets"), text(2, "widget"), text(4, "Widget")]);
    let spec = message(&[
        text(1, "example.io"),
        encode_length_delimited(3, &names),
        text(4, "Namespaced"),
    ]);
    let established = message(&[
        text(1, "Established"),
        text(2, "True"),
        text(4, "InitialNamesAccepted"),
        text(5, "the initial names have been accepted"),
    ]);
    let updated = message(&[text(1, ""), text(2, ""), text(5, "updated")]);
    let status = message(&[
        encode_length_delimited(1, &established),
        encode_length_delimited(1, &updated),
    ]);
    let buf = message(&[
        encode_length_delimited(1, &text(1, "widgets.example.io")),
        encode_length_delimited(2, &spec),
        encode_length_delimited(3, &status),
    ]);
    let result = decode("CustomResourceDefinition", &buf).unwrap();
    let conditions = result["status"]["conditions"].as_array().unwrap();
    assert_eq!(conditions.len(), 2);
    assert_eq!(conditions[0]["type"], "Established");
    assert_eq!(conditions[0]["reason"], "InitialNamesAccepted");
    assert_eq!(conditions[1]["message"], "updated");
    assert_eq!(conditions[1]["type"], "");
}

fn pod(spec: &[u8]) -> serde_json::Value {
    decode("Pod", &encode_ld_field(2, spec)).unwrap()
}

#[test]
fn objects_of_unknown_kinds_are_refused() {
    assert!(decode("Pods", &[]).is_none());
    assert!(decode("", &[]).is_none());
    assert!(decode_versioned("pod", "v1", &[]).is_none());
}

#[test]
fn objects_whose_type_the_schema_lacks_are_refused() {
    let schema = Schema {
        index: message_index(&[]).unwrap(),
        exceptions: Exceptions::kubernetes(),
    };
    assert!(decode_proto_by_kind_and_version(&schema, "Pod", "v1", &[]).is_none());
}

#[test]
fn bytes_that_are_no_descriptor_set_are_refused() {
    assert!(message_index(&[0xff, 0xff, 0xff]).is_none());
    assert!(message_index(&number(1, 1)).is_none());
}

#[test]
fn nested_types_are_indexed_under_their_parents() {
    let index = message_index(&descriptor_bytes()).unwrap();
    let entry = index.get(".k8s.io.api.core.v1.ConfigMap.dataEntry").unwrap();
    assert!(entry.map_entry);
    assert_eq!(entry.fields.len(), 2);
    assert_eq!(entry.fields[1].name, "value");
    assert_eq!(entry.fields[1].kind, 9);
    let map = index.get(".k8s.io.api.core.v1.ConfigMap").unwrap();
    assert!(!map.map_entry);
    assert_eq!(map.fields[1].message_type, ".k8s.io.api.core.v1.ConfigMap.dataEntry");
    assert_eq!(map.fields[1].label, 3);
    assert!(index.get("k8s.io.api.core.v1.ConfigMap").is_none());
}

#[test]
fn of_two_types_with_one_name_the_later_one_counts() {
    let file = |field: &str| {
        let descriptor = field_descriptor(field, 1, 1, "s");
        let message_type = message(&[text(1, "T"), encode_ld_field(2, &descriptor)]);
        encode_ld_field(1, &message(&[text(2, "p"), encode_ld_field(4, &message_type)]))
    };
    let index = message_index(&message(&[file("first"), file("second")])).unwrap();
    assert_eq!(index.get(".p.T").unwrap().fields[0].name, "second");
}

#[test]
fn messages_sent_in_pieces_are_merged() {
    let container = encode_ld_field(2, &text(1, "c"));
    let raw = message(&[
        encode_ld_field(2, &message(&[text(16, "host"), text(3, "Never")])),
        encode_ld_field(2, &message(&[text(3, "Always"), container])),
    ]);
    let result = decode("Pod", &raw).unwrap();
    assert_eq!(result["spec"]["hostname"], "host");
    assert_eq!(result["spec"]["restartPolicy"], "Always");
    assert_eq!(result["spec"]["containers"][0]["name"], "c");
}

#[test]
fn packed_and_single_numbers_make_one_list() {
    let codes = message(&[number(3, 1), encode_ld_field(3, &[2, 3]), number(3, 4)]);
    let rule = encode_ld_field(2, &codes);
    let policy = encode_ld_field(1, &rule);
    let raw = encode_ld_field(2, &encode_ld_field(11, &policy));
    let result = decode("Job", &raw).unwrap();
    assert_eq!(
        result["spec"]["podFailurePolicy"]["rules"][0]["onExitCodes"]["values"],
        json("[1,2,3,4]")
    );
}

#[test]
fn numbers_are_signed() {
    let result = pod(&message(&[number(5, u64::MAX)]));
    assert_eq!(result["spec"]["activeDeadlineSeconds"], -1);
    let raw = number(2, 0xffff_ffff_ffff_ff9c);
    assert_eq!(decode("PriorityClass", &raw).unwrap()["value"], -100);
    let raw = number(2, 0x1_0000_0005);
    assert_eq!(decode("PriorityClass", &raw).unwrap()["value"], 5);
}

#[test]
fn fields_with_the_wrong_wire_type_are_refused() {
    assert!(decode("PriorityClass", &text(2, "high")).is_none());
    assert!(decode("PriorityClass", &number(4, 1)).is_none());
    assert!(decode("Pod", &number(2, 1)).is_none());
}

#[test]
fn ill_formed_text_is_refused() {
    assert!(decode("PriorityClass", &encode_ld_field(4, &[0xc3, 0x28])).is_none());
}

#[test]
fn undeclared_fields_leave_no_trace() {
    let plain = text(4, "text");
    let more = message(&[number(99, 1), plain.clone(), text(100, "x")]);
    assert_eq!(decode("PriorityClass", &more), decode("PriorityClass", &plain));
}

#[test]
fn real_numbers_are_shown() {
    let crd = |schema_props: &[u8]| {
        let validation = encode_ld_field(1, schema_props);
        let version = encode_ld_field(4, &validation);
        encode_ld_field(2, &encode_ld_field(7, &version))
    };
    let mut maximum = vec![(9 << 3) | 1];
    maximum.extend_from_slice(&2.5f64.to_le_bytes());
    let result = decode("CustomResourceDefinition", &crd(&message(&[maximum, text(7, "t")])));
    let schema_json = &result.unwrap()["spec"]["versions"][0]["schema"]["openAPIV3Schema"];
    assert_eq!(schema_json, &json(r#"{"title":"t","maximum":2.5}"#));
    assert!(decode("CustomResourceDefinition", &crd(&number(9, 1))).is_none());
}

const SCALAR_KINDS: [(&str, u64); 16] = [
    ("double", 1),
    ("float", 2),
    ("int64", 3),
    ("uint64", 4),
    ("int32", 5),
    ("fixed64", 6),
    ("fixed32", 7),
    ("bool", 8),
    ("string", 9),
    ("bytes", 12),
    ("uint32", 13),
    ("enum", 14),
    ("sfixed32", 15),
    ("sfixed64", 16),
    ("sint32", 17),
    ("sint64", 18),
];

fn scalars(label: u64) -> Schema {
    let mut parts = vec![text(1, "T")];
    for (name, kind) in SCALAR_KINDS {
        let field = [text(1, name), number(3, kind), number(4, label), number(5, kind)];
        parts.push(encode_ld_field(2, &message(&field)));
    }
    let file = message(&[text(2, "p"), encode_ld_field(4, &message(&parts))]);
    Schema {
        index: message_index(&encode_ld_field(1, &file)).unwrap(),
        exceptions: Exceptions::kubernetes(),
    }
}

fn fixed(number: u64, value: &[u8]) -> Vec<u8> {
    let wire_type = if value.len() == 8 { 1 } else { 5 };
    let mut out = encode_varint((number << 3) | wire_type);
    out.extend_from_slice(value);
    out
}

fn scalar_members(label: u64, raw: &[u8]) -> Option<serde_json::Value> {
    decode_members(&scalars(label), ".p.T", raw).map(|members| to_value(&Json::Object(members)))
}

#[test]
fn scalars_of_every_kind_are_shown() {
    let raw = message(&[
        fixed(1, &(-0.125f64).to_le_bytes()),
        fixed(2, &1.5f32.to_le_bytes()),
        number(3, u64::MAX),
        number(4, u64::MAX),
        number(5, u64::MAX - 1),
        fixed(6, &0x8000_0000_0000_0001u64.to_le_bytes()),
        fixed(7, &0x8765_4321u32.to_le_bytes()),
        number(8, 1),
        text(9, "s"),
        text(12, "b"),
        number(13, 0x1_ffff_fffe),
        number(14, 2),
        fixed(15, &(-3i32).to_le_bytes()),
        fixed(16, &i64::MIN.to_le_bytes()),
        number(17, 0xffff_ffff),
        number(18, u64::MAX),
    ]);
    assert_eq!(
        scalar_members(1, &raw).unwrap(),
        json(
            r#"{"double":-0.125,"float":1.5,"int64":-1,"uint64":18446744073709551615,
            "int32":-2,"fixed64":9223372036854775809,"fixed32":2271560481,"bool":true,
            "string":"s","bytes":"Yg==","uint32":4294967294,"enum":2,"sfixed32":-3,
            "sfixed64":-9223372036854775808,"sint32":-2147483648,
            "sint64":-9223372036854775808}"#
        )
    );
    let keys = expected_json_keys(&scalars(1).index, &scalars(1).exceptions, ".p.T");
    let shown = scalar_members(1, &raw).unwrap();
    assert_eq!(keys.len(), SCALAR_KINDS.len());
    assert!(SCALAR_KINDS.iter().all(|(name, _)| keys.contains(name) && !shown[*name].is_null()));
    assert_eq!(scalar_members(1, &[]).unwrap(), json("{}"));
}

#[test]
fn small_and_signed_numbers_are_told_apart() {
    for (code, value) in [(0, 0), (1, -1), (2, 1), (3, -2), (4, 2)] {
        let raw = message(&[number(17, code), number(18, code)]);
        let shown = scalar_members(1, &raw).unwrap();
        assert_eq!(shown["sint32"], value);
        assert_eq!(shown["sint64"], value);
    }
    let members = decode_members(&scalars(1), ".p.T", &number(4, 7)).unwrap();
    assert_eq!(members, vec![("uint64".to_string(), Json::Int(7))]);
    let members = decode_members(&scalars(1), ".p.T", &number(4, 1 << 63)).unwrap();
    assert_eq!(members, vec![("uint64".to_string(), Json::UInt(1 << 63))]);
}

#[test]
fn repeated_numbers_are_read_packed_and_one_by_one() {
    let packed = [1u32.to_le_bytes(), 2u32.to_le_bytes()].concat();
    let reals = [0.5f64.to_le_bytes(), 2.0f64.to_le_bytes()].concat();
    let raw = message(&[
        fixed(7, &9u32.to_le_bytes()),
        encode_ld_field(7, &packed),
        encode_ld_field(1, &reals),
        encode_ld_field(18, &[1, 2]),
        number(18, 5),
        encode_ld_field(13, &[]),
    ]);
    assert_eq!(
        scalar_members(3, &raw).unwrap(),
        json(r#"{"double":[0.5,2.0],"fixed32":[9,1,2],"sint64":[-1,1,-3]}"#)
    );
    assert!(scalar_members(3, &encode_ld_field(7, &packed[1..])).is_none());
    assert!(scalar_members(3, &encode_ld_field(1, &packed[..4])).is_none());
    assert!(scalar_members(1, &encode_ld_field(7, &packed)).is_none());
    assert!(scalar_members(1, &number(7, 1)).is_none());
    assert!(scalar_members(1, &fixed(13, &[0; 4])).is_none());
}

#[test]
fn fields_of_no_known_type_are_real_numbers() {
    for kind in [0, 19, u64::MAX] {
        let field = message(&[text(1, "x"), number(3, 1), number(5, kind)]);
        let described = message(&[text(1, "T"), encode_ld_field(2, &field)]);
        let file = message(&[text(2, "p"), encode_ld_field(4, &described)]);
        let schema = Schema {
            index: message_index(&encode_ld_field(1, &file)).unwrap(),
            exceptions: Exceptions::kubernetes(),
        };
        let members = decode_members(&schema, ".p.T", &fixed(1, &2.5f64.to_le_bytes()));
        let expected = vec![("x".to_string(), Json::Double(2.5f64.to_bits()))];
        assert_eq!(members, Some(expected));
        assert!(decode_members(&schema, ".p.T", &text(1, "x")).is_none());
    }
}

#[test]
fn json_schema_keys_start_with_a_dollar_sign() {
    let props = message(&[text(2, "http://schema"), text(3, "#/ref")]);
    let version = encode_ld_field(4, &encode_ld_field(1, &props));
    let raw = encode_ld_field(2, &encode_ld_field(7, &version));
    let result = decode("CustomResourceDefinition", &raw).unwrap();
    let schema_json = &result["spec"]["versions"][0]["schema"]["openAPIV3Schema"];
    assert_eq!(schema_json, &json(r##"{"$schema":"http://schema","$ref":"#/ref"}"##));
}

#[test]
fn map_entries_default_and_the_last_one_counts() {
    let entry = |key: &str, value: &str| {
        encode_ld_field(2, &message(&[text(1, key), text(2, value)]))
    };
    let raw = message(&[
        entry("a", "1"),
        entry("b", "2"),
        entry("a", "3"),
        encode_ld_field(2, &text(1, "c")),
        encode_ld_field(2, &text(2, "nameless")),
    ]);
    assert_eq!(
        decode("ConfigMap", &raw).unwrap()["data"],
        json(r#"{"a":"3","b":"2","c":"","":"nameless"}"#)
    );
}

#[test]
fn quantities_without_a_text_are_zero() {
    let hard = encode_ld_field(1, &text(1, "pods"));
    let raw = encode_ld_field(2, &hard);
    assert_eq!(decode("ResourceQuota", &raw).unwrap()["spec"]["hard"], json(r#"{"pods":"0"}"#));
}

#[test]
fn numbers_that_may_be_texts_are_told_apart() {
    let named = message(&[number(1, 1), number(2, 7), text(3, "https")]);
    let port = message(&[number(3, 443), encode_ld_field(4, &named)]);
    let raw = encode_ld_field(2, &encode_ld_field(1, &port));
    let result = decode("Service", &raw).unwrap();
    assert_eq!(result["spec"]["ports"][0]["targetPort"], "https");
}

#[test]
fn bytes_are_shown_in_base64() {
    for (bytes, shown) in [
        (&b""[..], ""),
        (&b"f"[..], "Zg=="),
        (&b"fo"[..], "Zm8="),
        (&b"foo"[..], "Zm9v"),
        (&[0xfb, 0xff, 0xbf][..], "+/+/"),
    ] {
        let entry = message(&[text(1, "k"), encode_ld_field(2, bytes)]);
        let raw = encode_ld_field(2, &entry);
        assert_eq!(decode("Secret", &raw).unwrap()["data"]["k"], shown);
    }
}

#[test]
fn instants_without_a_value_are_null() {
    let raw = encode_ld_field(1, &message(&[text(1, "n"), encode_ld_field(8, &[])]));
    assert_eq!(
        decode("Namespace", &raw).unwrap()["metadata"],
        json(r#"{"name":"n","creationTimestamp":null}"#)
    );
    let raw = encode_ld_field(1, &encode_ld_field(8, &number(1, 0)));
    assert_eq!(
        decode("Namespace", &raw).unwrap()["metadata"]["creationTimestamp"],
        "1970-01-01T00:00:00Z"
    );
}

#[test]
fn empty_objects_show_what_must_be_there() {
    assert_eq!(
        decode("Pod", &[]).unwrap(),
        json(r#"{"apiVersion":"v1","kind":"Pod","spec":{"containers":[]}}"#)
    );
    assert_eq!(
        decode("CSINode", &[]).unwrap(),
        json(r#"{"apiVersion":"storage.k8s.io/v1","kind":"CSINode","spec":{"drivers":[]}}"#)
    );
    assert_eq!(
        decode("Job", &encode_ld_field(2, &[])).unwrap()["spec"],
        json(r#"{"template":{}}"#)
    );
}

#[test]
fn replica_counts_and_modes_that_were_sent_are_kept() {
    let raw = encode_ld_field(2, &number(1, 3));
    assert_eq!(decode("Deployment", &raw).unwrap()["spec"], json(r#"{"replicas":3}"#));
    let volume = encode_ld_field(2, &encode_ld_field(16, &number(2, 256)));
    let result = pod(&encode_ld_field(1, &volume));
    assert_eq!(result["spec"]["volumes"][0]["downwardAPI"], json(r#"{"defaultMode":256}"#));
    let volume = encode_ld_field(2, &encode_ld_field(16, &number(2, 0)));
    let result = pod(&encode_ld_field(1, &volume));
    assert_eq!(result["spec"]["volumes"][0]["downwardAPI"], json(r#"{"defaultMode":420}"#));
}

#[test]
fn messages_nest_up_to_the_limit() {
    for (levels, accepted) in [(10, true), (95, true), (97, false)] {
        let mut props = Vec::new();
        for _ in 0..levels {
            props = encode_ld_field(28, &props);
        }
        let version = encode_ld_field(4, &encode_ld_field(1, &props));
        let raw = encode_ld_field(2, &encode_ld_field(7, &version));
        assert_eq!(decode("CustomResourceDefinition", &raw).is_some(), accepted);
    }
}

#[test]
fn message_types_nest_up_to_the_limit() {
    for (levels, accepted) in [(98, true), (99, false)] {
        let mut nested = message(&[text(1, "M"), text(10, "reserved")]);
        for _ in 0..levels {
            nested = message(&[text(1, "M"), encode_ld_field(3, &nested)]);
        }
        let file = message(&[text(2, "p"), encode_ld_field(4, &nested)]);
        let index = message_index(&encode_ld_field(1, &file));
        assert_eq!(index.is_some(), accepted, "{levels}");
        if let Some(index) = index {
            let deepest = format!(".p{}", ".M".repeat(levels + 1));
            assert!(index.get(&deepest).is_some());
        }
    }
}

#[test]
fn closed_types_are_expected_under_their_own_path() {
    let props = keys(
        ".k8s.io.apiextensions_apiserver.pkg.apis.apiextensions.v1.JSONSchemaProps",
    );
    assert!(has(&props, "not") && !props.iter().any(|k| k.starts_with("not.")));
    let meta = keys(".k8s.io.apimachinery.pkg.apis.meta.v1.ObjectMeta");
    assert!(has(&meta, "creationTimestamp"));
    assert!(!meta.iter().any(|k| k.starts_with("creationTimestamp.")));
}

#[test]
fn types_that_the_index_lacks_are_noticed() {
    let mut schema = schema();
    let pod = ".k8s.io.api.core.v1.Pod";
    assert!(types_are_known(&schema.index, &schema.exceptions, pod));
    assert!(!types_are_known(&schema.index, &schema.exceptions, ".p.T"));
    let quantity = ".k8s.io.apimachinery.pkg.api.resource.Quantity";
    assert!(types_are_known(&schema.index, &schema.exceptions, quantity));
    schema.index.messages.retain(|m| m.name != ".k8s.io.api.core.v1.ExecAction");
    assert!(!types_are_known(&schema.index, &schema.exceptions, pod));
    let taint = ".k8s.io.api.core.v1.Taint";
    assert!(types_are_known(&schema.index, &schema.exceptions, taint));
}

#[test]
fn containers_of_each_sort_have_the_same_keys() {
    let keys = keys(".k8s.io.api.core.v1.Pod");
    let below = |path: &str| -> Vec<String> {
        keys.iter().filter_map(|k| k.strip_prefix(path)).map(|k| k.to_string()).collect()
    };
    let containers = below("spec.containers.");
    assert!(has(&containers, "name"));
    assert!(has(&containers, "lifecycle.preStop.exec.command"));
    assert!(has(&containers, "resources.limits.__sentinel__"));
    assert_eq!(containers, below("spec.initContainers."));
}

#[test]
fn no_key_lies_below_another() {
    for root in [
        ".k8s.io.api.core.v1.Pod",
        ".k8s.io.api.core.v1.PersistentVolume",
        ".k8s.io.api.apps.v1.Deployment",
        ".k8s.io.api.coordination.v1.Lease",
    ] {
        let keys = keys(root);
        assert!(!keys.is_empty());
        for key in &keys {
            let path = format!("{key}.");
            assert!(!keys.iter().any(|k| k.starts_with(&path)), "{root}: {key}");
        }
    }
}

#[test]
fn keys_of_several_types_are_put_together() {
    let schema = schema();
    let roots = [".k8s.io.api.core.v1.Taint", ".k8s.io.api.core.v1.KeyToPath"];
    for root in roots {
        assert!(types_are_known(&schema.index, &schema.exceptions, root));
    }
    let keys = expected_json_keys_for(&schema.index, &schema.exceptions, &roots);
    assert_eq!(keys.len(), 5);
    for key in ["key", "value", "effect", "path", "mode"] {
        assert!(keys.contains(key));
    }
    assert!(!keys.contains("name"));
}

#[test]
fn omitted_fields_have_no_key_and_no_member() {
    let mut schema = schema();
    schema.exceptions.omissions.push(FieldPath {
        message: ".k8s.io.api.scheduling.v1.PriorityClass".to_string(),
        field: "description".to_string(),
    });
    let keys = expected_json_keys(
        &schema.index,
        &schema.exceptions,
        ".k8s.io.api.scheduling.v1.PriorityClass",
    );
    assert!(keys.contains("preemptionPolicy") && !keys.contains("description"));
    let raw = message(&[text(4, "d"), text(5, "Never")]);
    let result = decode_proto_by_kind_and_version(&schema, "PriorityClass", "", &raw).unwrap();
    assert_eq!(result.member("description"), None);
    assert_eq!(result.member("preemptionPolicy"), Some(&Json::Str("Never".to_string())));
}

#[test]
fn map_value_types_are_told_apart() {
    let schema = schema();
    let index = &schema.index;
    let labels = ".k8s.io.apimachinery.pkg.apis.meta.v1.ObjectMeta.labelsEntry";
    assert_eq!(map_value_type(index, labels), Some(None));
    let limits = ".k8s.io.api.core.v1.ResourceRequirements.limitsEntry";
    assert_eq!(
        map_value_type(index, limits),
        Some(Some(".k8s.io.apimachinery.pkg.api.resource.Quantity"))
    );
    assert_eq!(map_value_type(index, ".k8s.io.api.core.v1.Pod"), None);
    assert_eq!(map_value_type(index, ".p.T"), None);
}

#[test]
fn every_kind_is_in_its_group() {
    for (kind, version, group) in [
        ("Event", "events.k8s.io/v1", ApiGroup::Events),
        ("Event", "v1", ApiGroup::Core),
        ("Pod", "events.k8s.io/v1", ApiGroup::Core),
        ("Deployment", "", ApiGroup::Apps),
        ("CronJob", "", ApiGroup::Batch),
        ("Role", "", ApiGroup::Rbac),
        ("LocalSubjectAccessReview", "", ApiGroup::Authorization),
        ("TokenReview", "", ApiGroup::Authentication),
        ("Lease", "", ApiGroup::Coordination),
        ("CSINode", "", ApiGroup::Storage),
        ("Ingress", "", ApiGroup::Networking),
        ("EndpointSlice", "", ApiGroup::Discovery),
        ("PodDisruptionBudget", "", ApiGroup::Policy),
        ("FlowSchema", "", ApiGroup::FlowControl),
        ("ValidatingAdmissionPolicy", "", ApiGroup::AdmissionRegistration),
        ("CertificateSigningRequest", "", ApiGroup::Certificates),
        ("PriorityClass", "", ApiGroup::Scheduling),
        ("RuntimeClass", "", ApiGroup::Node),
        ("CustomResourceDefinition", "", ApiGroup::ApiExtensions),
        ("DeleteOptions", "", ApiGroup::Meta),
    ] {
        assert_eq!(api_group(kind, version), Some(group));
    }
}

#[test]
fn embedded_json_is_carried_as_it_was_sent() {
    let data = r#"{"spec":{"replicas":2}}"#;
    let raw = message(&[encode_ld_field(2, &text(1, data)), number(3, 1)]);
    assert_eq!(
        decode("ControllerRevision", &raw).unwrap(),
        json(
            r#"{"apiVersion":"apps/v1","kind":"ControllerRevision","revision":1,
            "data":{"spec":{"replicas":2}}}"#
        )
    );
    let raw = encode_ld_field(2, &[]);
    assert!(decode("ControllerRevision", &raw).unwrap()["data"].is_null());
}
